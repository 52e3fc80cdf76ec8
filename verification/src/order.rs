//! Lexicographic order on graphemes (sequences of chars) and on words
//! (sequences of graphemes), as `Ord` on `str` and on `Vec<&str>` orders them.
use vstd::prelude::*;
use vstd::string::*;

verus! {

/// The outcome of comparing two values.
#[derive(Clone, Copy, Debug, PartialEq, Eq, Structural)]
pub enum Order {
    Less,
    Equal,
    Greater,
}

/// `lt` is a strict total order.
pub open spec fn strict_total<T>(lt: spec_fn(T, T) -> bool) -> bool {
    &&& forall|x: T| !#[trigger] lt(x, x)
    &&& forall|x: T, y: T, z: T| #[trigger] lt(x, y) && #[trigger] lt(y, z) ==> lt(x, z)
    &&& forall|x: T, y: T| #[trigger] lt(x, y) || x == y || #[trigger] lt(y, x)
}

/// Lexicographic extension of `lt` to sequences; a proper prefix is smaller.
pub open spec fn lex_lt<T>(a: Seq<T>, b: Seq<T>, lt: spec_fn(T, T) -> bool) -> bool
    decreases a.len(),
{
    if a.len() == 0 {
        b.len() > 0
    } else if b.len() == 0 {
        false
    } else if lt(a[0], b[0]) {
        true
    } else if a[0] == b[0] {
        lex_lt(a.drop_first(), b.drop_first(), lt)
    } else {
        false
    }
}

/// Order of chars by their code point.
pub open spec fn char_lt(x: char, y: char) -> bool {
    x < y
}

/// Order of graphemes: lexicographic by code point, which is how `str` orders
/// its values (UTF-8 byte order agrees with code point order).
pub open spec fn chars_lt(a: Seq<char>, b: Seq<char>) -> bool {
    lex_lt(a, b, char_rel())
}

/// `char_lt` as a relation value.
pub open spec fn char_rel() -> spec_fn(char, char) -> bool {
    |x: char, y: char| char_lt(x, y)
}

/// `chars_lt` as a relation value.
pub open spec fn grapheme_rel() -> spec_fn(Seq<char>, Seq<char>) -> bool {
    |x: Seq<char>, y: Seq<char>| chars_lt(x, y)
}

/// Order of words: lexicographic over graphemes, as `Vec<&str>` orders them.
pub open spec fn word_lt(a: Seq<Seq<char>>, b: Seq<Seq<char>>) -> bool {
    lex_lt(a, b, grapheme_rel())
}

/// The three-way comparison of two graphemes.
pub open spec fn chars_order(a: Seq<char>, b: Seq<char>) -> Order {
    if chars_lt(a, b) {
        Order::Less
    } else if a == b {
        Order::Equal
    } else {
        Order::Greater
    }
}

/// The three-way comparison of two words.
pub open spec fn word_order(a: Seq<Seq<char>>, b: Seq<Seq<char>>) -> Order {
    if word_lt(a, b) {
        Order::Less
    } else if a == b {
        Order::Equal
    } else {
        Order::Greater
    }
}

pub proof fn lemma_lex_irreflexive<T>(a: Seq<T>, lt: spec_fn(T, T) -> bool)
    requires
        strict_total(lt),
    ensures
        !lex_lt(a, a, lt),
    decreases a.len(),
{
    if a.len() > 0 {
        assert(!lt(a[0], a[0]));
        lemma_lex_irreflexive(a.drop_first(), lt);
    }
}

pub proof fn lemma_lex_transitive<T>(a: Seq<T>, b: Seq<T>, c: Seq<T>, lt: spec_fn(T, T) -> bool)
    requires
        strict_total(lt),
        lex_lt(a, b, lt),
        lex_lt(b, c, lt),
    ensures
        lex_lt(a, c, lt),
    decreases a.len(),
{
    if a.len() > 0 {
        assert(b.len() > 0 && c.len() > 0);
        if lt(a[0], b[0]) {
            if lt(b[0], c[0]) {
                assert(lt(a[0], c[0]));
            } else {
                assert(b[0] == c[0]);
            }
        } else {
            assert(a[0] == b[0]);
            if !lt(b[0], c[0]) {
                assert(b[0] == c[0]);
                assert(!lt(a[0], c[0]));
                lemma_lex_transitive(a.drop_first(), b.drop_first(), c.drop_first(), lt);
            }
        }
    }
}

pub proof fn lemma_lex_total<T>(a: Seq<T>, b: Seq<T>, lt: spec_fn(T, T) -> bool)
    requires
        strict_total(lt),
    ensures
        lex_lt(a, b, lt) || a == b || lex_lt(b, a, lt),
    decreases a.len(),
{
    if a.len() == 0 {
        if b.len() == 0 {
            assert(a =~= b);
        }
    } else if b.len() > 0 {
        if a[0] == b[0] {
            assert(!lt(a[0], b[0]));
            lemma_lex_total(a.drop_first(), b.drop_first(), lt);
            if a.drop_first() == b.drop_first() {
                assert(a =~= b) by {
                    assert(a.drop_first().len() == b.drop_first().len());
                    assert(a.len() == b.len());
                    assert forall|i: int| 0 <= i < a.len() implies a[i] == b[i] by {
                        if i > 0 {
                            assert(a[i] == a.drop_first()[i - 1]);
                            assert(b[i] == b.drop_first()[i - 1]);
                        }
                    }
                }
            }
        } else {
            assert(lt(a[0], b[0]) || lt(b[0], a[0]));
        }
    }
}

pub proof fn lemma_lex_asymmetric<T>(a: Seq<T>, b: Seq<T>, lt: spec_fn(T, T) -> bool)
    requires
        strict_total(lt),
        lex_lt(a, b, lt),
    ensures
        !lex_lt(b, a, lt),
        a != b,
{
    lemma_lex_irreflexive(a, lt);
    if lex_lt(b, a, lt) {
        lemma_lex_transitive(a, b, a, lt);
    }
}

/// The lexicographic extension of a strict total order is a strict total order.
pub proof fn lemma_lex_strict_total<T>(lt: spec_fn(T, T) -> bool)
    requires
        strict_total(lt),
    ensures
        strict_total(|a: Seq<T>, b: Seq<T>| lex_lt(a, b, lt)),
{
    let llt = |a: Seq<T>, b: Seq<T>| lex_lt(a, b, lt);
    assert forall|x: Seq<T>| !#[trigger] llt(x, x) by {
        lemma_lex_irreflexive(x, lt);
    }
    assert forall|x: Seq<T>, y: Seq<T>, z: Seq<T>| #[trigger] llt(x, y) && #[trigger] llt(y, z)
        implies llt(x, z) by {
        lemma_lex_transitive(x, y, z, lt);
    }
    assert forall|x: Seq<T>, y: Seq<T>| #[trigger] llt(x, y) || x == y || #[trigger] llt(y, x) by {
        lemma_lex_total(x, y, lt);
    }
}

/// Comparing past a common prefix gives the same outcome.
pub proof fn lemma_lex_skip<T>(a: Seq<T>, b: Seq<T>, i: int, lt: spec_fn(T, T) -> bool)
    requires
        strict_total(lt),
        0 <= i <= a.len(),
        i <= b.len(),
        forall|k: int| 0 <= k < i ==> a[k] == b[k],
    ensures
        lex_lt(a, b, lt) == lex_lt(a.skip(i), b.skip(i), lt),
    decreases i,
{
    if i > 0 {
        assert(!lt(a[0], b[0]));
        lemma_lex_skip(a.drop_first(), b.drop_first(), i - 1, lt);
        assert(a.drop_first().skip(i - 1) =~= a.skip(i));
        assert(b.drop_first().skip(i - 1) =~= b.skip(i));
    } else {
        assert(a.skip(0) =~= a);
        assert(b.skip(0) =~= b);
    }
}

pub proof fn lemma_char_strict_total()
    ensures
        strict_total(char_rel()),
{
    let lt = char_rel();
    assert forall|x: char, y: char| #[trigger] lt(x, y) || x == y || #[trigger] lt(y, x) by {

    }
}

pub proof fn lemma_chars_strict_total()
    ensures
        strict_total(grapheme_rel()),
{
    lemma_char_strict_total();
    lemma_lex_strict_total(char_rel());
    let f = grapheme_rel();
    let g = |a: Seq<char>, b: Seq<char>| lex_lt(a, b, char_rel());
    assert(f =~= g);
}

pub proof fn lemma_chars_lt_transitive(a: Seq<char>, b: Seq<char>, c: Seq<char>)
    requires
        chars_lt(a, b),
        chars_lt(b, c),
    ensures
        chars_lt(a, c),
{
    lemma_char_strict_total();
    lemma_lex_transitive(a, b, c, char_rel());
}

pub proof fn lemma_chars_lt_asymmetric(a: Seq<char>, b: Seq<char>)
    requires
        chars_lt(a, b),
    ensures
        !chars_lt(b, a),
        a != b,
{
    lemma_char_strict_total();
    lemma_lex_asymmetric(a, b, char_rel());
}

pub proof fn lemma_chars_lt_total(a: Seq<char>, b: Seq<char>)
    ensures
        chars_lt(a, b) || a == b || chars_lt(b, a),
        !chars_lt(a, a),
{
    lemma_char_strict_total();
    lemma_lex_total(a, b, char_rel());
    lemma_lex_irreflexive(a, char_rel());
}

pub proof fn lemma_word_lt_transitive(a: Seq<Seq<char>>, b: Seq<Seq<char>>, c: Seq<Seq<char>>)
    requires
        word_lt(a, b),
        word_lt(b, c),
    ensures
        word_lt(a, c),
{
    lemma_chars_strict_total();
    lemma_lex_transitive(a, b, c, grapheme_rel());
}

pub proof fn lemma_word_lt_asymmetric(a: Seq<Seq<char>>, b: Seq<Seq<char>>)
    requires
        word_lt(a, b),
    ensures
        !word_lt(b, a),
        a != b,
{
    lemma_chars_strict_total();
    lemma_lex_asymmetric(a, b, grapheme_rel());
}

pub proof fn lemma_word_lt_total(a: Seq<Seq<char>>, b: Seq<Seq<char>>)
    ensures
        word_lt(a, b) || a == b || word_lt(b, a),
        !word_lt(a, a),
{
    lemma_chars_strict_total();
    lemma_lex_total(a, b, grapheme_rel());
    lemma_lex_irreflexive(a, grapheme_rel());
}

/// Whether two graphemes are the same text.
pub fn same_grapheme(a: &str, b: &str) -> (r: bool)
    ensures
        r == (a@ == b@),
{
    proof {
        lemma_chars_lt_total(a@, b@);
    }
    compare_graphemes(a, b) == Order::Equal
}

/// Compares two graphemes char by char.
pub fn compare_graphemes(a: &str, b: &str) -> (r: Order)
    ensures
        r == chars_order(a@, b@),
{
    let ghost lt = char_rel();
    proof {
        lemma_char_strict_total();
    }
    let la = a.unicode_len();
    let lb = b.unicode_len();
    let mut i: usize = 0;
    while i < la && i < lb
        invariant
            la == a@.len(),
            lb == b@.len(),
            i <= la,
            i <= lb,
            lt == char_rel(),
            strict_total(lt),
            forall|k: int| 0 <= k < i ==> a@[k] == b@[k],
        decreases la - i,
    {
        let ca = a.get_char(i);
        let cb = b.get_char(i);
        if ca != cb {
            proof {
                lemma_lex_skip(a@, b@, i as int, lt);
                lemma_lex_skip(b@, a@, i as int, lt);
                assert(a@.skip(i as int)[0] == ca);
                assert(b@.skip(i as int)[0] == cb);
            }
            if ca < cb {
                proof {
                    assert(lex_lt(a@, b@, lt));
                }
                return Order::Less;
            } else {
                proof {
                    assert(lt(cb, ca));
                    assert(lex_lt(b@.skip(i as int), a@.skip(i as int), lt));
                    assert(lex_lt(b@, a@, lt));
                    lemma_lex_asymmetric(b@, a@, lt);
                }
                return Order::Greater;
            }
        }
        i += 1;
    }
    proof {
        lemma_lex_skip(a@, b@, i as int, lt);
        lemma_lex_skip(b@, a@, i as int, lt);
    }
    if la < lb {
        return Order::Less;
    } else if la == lb {
        proof {
            assert(a@ =~= b@);
            lemma_lex_irreflexive(a@, lt);
        }
        return Order::Equal;
    } else {
        proof {
            lemma_lex_asymmetric(b@, a@, lt);
        }
        return Order::Greater;
    }
}

/// Compares two words grapheme by grapheme.
pub fn compare_words(a: &[&str], b: &[&str]) -> (r: Order)
    ensures
        r == word_order(a.deep_view(), b.deep_view()),
{
    let ghost lt = grapheme_rel();
    let ghost da = a.deep_view();
    let ghost db = b.deep_view();
    proof {
        lemma_chars_strict_total();
    }
    let la = a.len();
    let lb = b.len();
    let mut i: usize = 0;
    while i < la && i < lb
        invariant
            la == a@.len(),
            lb == b@.len(),
            da == a.deep_view(),
            db == b.deep_view(),
            da.len() == la,
            db.len() == lb,
            i <= la,
            i <= lb,
            lt == grapheme_rel(),
            strict_total(lt),
            forall|k: int| 0 <= k < i ==> da[k] == db[k],
        decreases la - i,
    {
        let c = compare_graphemes(a[i], b[i]);
        proof {
            assert(da[i as int] == a@[i as int]@);
            assert(db[i as int] == b@[i as int]@);
        }
        match c {
            Order::Equal => {},
            _ => {
                proof {
                    lemma_lex_skip(da, db, i as int, lt);
                    lemma_lex_skip(db, da, i as int, lt);
                    assert(da.skip(i as int)[0] == da[i as int]);
                    assert(db.skip(i as int)[0] == db[i as int]);
                }
                if let Order::Less = c {
                    proof {
                        assert(lt(da[i as int], db[i as int]));
                        assert(lex_lt(da.skip(i as int), db.skip(i as int), lt));
                        assert(lex_lt(da, db, lt));
                    }
                    return Order::Less;
                } else {
                    proof {
                        lemma_char_strict_total();
                        lemma_lex_total(da[i as int], db[i as int], char_rel());
                        assert(lt(db[i as int], da[i as int]));
                        assert(lex_lt(db.skip(i as int), da.skip(i as int), lt));
                        assert(lex_lt(db, da, lt));
                        lemma_lex_asymmetric(db, da, lt);
                    }
                    return Order::Greater;
                }
            },
        }
        i += 1;
    }
    proof {
        lemma_lex_skip(da, db, i as int, lt);
        lemma_lex_skip(db, da, i as int, lt);
    }
    if la < lb {
        return Order::Less;
    } else if la == lb {
        proof {
            assert(da =~= db);
            lemma_lex_irreflexive(da, lt);
        }
        return Order::Equal;
    } else {
        proof {
            lemma_lex_asymmetric(db, da, lt);
        }
        return Order::Greater;
    }
}

/// A value is among the first `j + 1` items iff it is among the first `j`
/// or is item `j`.
pub proof fn lemma_take_one_more<T>(s: Seq<T>, j: int, y: T)
    requires
        0 <= j < s.len(),
    ensures
        s.take(j + 1).contains(y) <==> s.take(j).contains(y) || y == s[j],
{
    if s.take(j + 1).contains(y) {
        let k = choose|k: int| 0 <= k < j + 1 && #[trigger] s.take(j + 1)[k] == y;
        if k < j {
            assert(s.take(j)[k] == y);
        }
    }
    if s.take(j).contains(y) {
        let k = choose|k: int| 0 <= k < j && #[trigger] s.take(j)[k] == y;
        assert(s.take(j + 1)[k] == y);
    }
    if y == s[j] {
        assert(s.take(j + 1)[j] == y);
    }
}

} // verus!
