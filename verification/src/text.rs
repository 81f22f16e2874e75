//! Text: decimal numbers, the order of strings, and the parts of a path.

use vstd::prelude::*;
use vstd::utf8::encode_utf8;

verus! {

/// The digit `d`, for `d` below ten.
pub open spec fn digit(d: nat) -> char {
    (48 + d) as char
}

/// `n` in decimal, without leading zeros.
pub open spec fn decimal(n: nat) -> Seq<char>
    decreases n,
{
    if n < 10 {
        seq![digit(n)]
    } else {
        decimal(n / 10).push(digit(n % 10))
    }
}

fn digit_text(d: u64) -> (s: &'static str)
    requires
        d < 10,
    ensures
        s@ == seq![digit(d as nat)],
{
    proof {
        reveal_strlit("0");
        reveal_strlit("1");
        reveal_strlit("2");
        reveal_strlit("3");
        reveal_strlit("4");
        reveal_strlit("5");
        reveal_strlit("6");
        reveal_strlit("7");
        reveal_strlit("8");
        reveal_strlit("9");
    }
    let s: &'static str = if d == 0 {
        "0"
    } else if d == 1 {
        "1"
    } else if d == 2 {
        "2"
    } else if d == 3 {
        "3"
    } else if d == 4 {
        "4"
    } else if d == 5 {
        "5"
    } else if d == 6 {
        "6"
    } else if d == 7 {
        "7"
    } else if d == 8 {
        "8"
    } else {
        "9"
    };
    assert(s@ =~= seq![digit(d as nat)]);
    s
}

/// `n` in decimal.
pub fn number(n: u64) -> (s: String)
    ensures
        s@ == decimal(n as nat),
    decreases n,
{
    if n < 10 {
        let mut s = String::new();
        s.append(digit_text(n));
        assert(s@ =~= decimal(n as nat));
        s
    } else {
        let mut s = number(n / 10);
        s.append(digit_text(n % 10));
        assert(s@ =~= decimal(n as nat));
        s
    }
}

/// Every character of a string, in order.
pub fn characters(s: &str) -> (out: Vec<char>)
    ensures
        out@ == s@,
{
    broadcast use vstd::string::axiom_spec_iter;

    let mut out: Vec<char> = Vec::new();
    let ghost whole = s@;
    for c in it: s.chars()
        invariant
            whole == s@,
            it.seq() == whole,
            out@ == whole.take(it.index()),
            it.index() == whole.len() ==> out@ == whole,
    {
        proof {
            assert(whole.take(it.index() + 1) =~= whole.take(it.index()).push(c));
            assert(it.index() + 1 == whole.len() ==> whole.take(it.index() + 1) =~= whole);
        }
        out.push(c);
    }
    out
}

/// Lexicographic order of bytes.
pub open spec fn bytes_le(a: Seq<u8>, b: Seq<u8>) -> bool
    decreases a.len(),
{
    if a.len() == 0 {
        true
    } else if b.len() == 0 {
        false
    } else if a[0] != b[0] {
        a[0] < b[0]
    } else {
        bytes_le(a.drop_first(), b.drop_first())
    }
}

/// The order of strings: by their UTF-8 bytes.
pub open spec fn text_le(a: Seq<char>, b: Seq<char>) -> bool {
    bytes_le(encode_utf8(a), encode_utf8(b))
}

proof fn lemma_bytes_total(a: Seq<u8>, b: Seq<u8>)
    ensures
        bytes_le(a, b) || bytes_le(b, a),
        bytes_le(a, b) && bytes_le(b, a) ==> a == b,
        bytes_le(a, a),
    decreases a.len(),
{
    if a.len() == 0 {
        if b.len() == 0 {
            assert(a =~= b);
        }
    } else {
        lemma_bytes_total(a.drop_first(), a.drop_first());
        if b.len() > 0 {
            lemma_bytes_total(a.drop_first(), b.drop_first());
            if a[0] == b[0] && a.drop_first() == b.drop_first() {
                assert(a =~= seq![a[0]] + a.drop_first());
                assert(b =~= seq![b[0]] + b.drop_first());
            }
        }
    }
}

proof fn lemma_bytes_transitive(a: Seq<u8>, b: Seq<u8>, c: Seq<u8>)
    requires
        bytes_le(a, b),
        bytes_le(b, c),
    ensures
        bytes_le(a, c),
    decreases a.len(),
{
    if a.len() > 0 && a[0] == b[0] && b[0] == c[0] {
        lemma_bytes_transitive(a.drop_first(), b.drop_first(), c.drop_first());
    }
}

/// The order of strings is total, and two strings tie only when they are the same.
pub proof fn lemma_text_total(a: Seq<char>, b: Seq<char>)
    ensures
        text_le(a, b) || text_le(b, a),
        text_le(a, b) && text_le(b, a) ==> a == b,
        text_le(a, a),
{
    lemma_bytes_total(encode_utf8(a), encode_utf8(b));
    lemma_bytes_total(encode_utf8(a), encode_utf8(a));
    vstd::utf8::encode_utf8_decode_utf8(a);
    vstd::utf8::encode_utf8_decode_utf8(b);
}

/// The order of strings is transitive.
pub proof fn lemma_text_transitive(a: Seq<char>, b: Seq<char>, c: Seq<char>)
    requires
        text_le(a, b),
        text_le(b, c),
    ensures
        text_le(a, c),
{
    lemma_bytes_transitive(encode_utf8(a), encode_utf8(b), encode_utf8(c));
}

/// Where one value stands relative to another.
#[derive(Clone, Copy, Debug, PartialEq, Eq, Structural)]
pub enum Standing {
    Before,
    Same,
    After,
}

/// Where `a` stands relative to `b` in the order of strings.
pub fn text_standing(a: &str, b: &str) -> (standing: Standing)
    ensures
        match standing {
            Standing::Before => text_le(a@, b@) && a@ != b@,
            Standing::Same => a@ == b@,
            Standing::After => text_le(b@, a@) && a@ != b@,
        },
{
    let x = a.as_bytes();
    let y = b.as_bytes();
    let mut i: usize = 0;
    proof {
        lemma_text_total(a@, b@);
        vstd::utf8::encode_utf8_decode_utf8(a@);
        vstd::utf8::encode_utf8_decode_utf8(b@);
        assert(x@.skip(0) =~= x@);
        assert(y@.skip(0) =~= y@);
    }
    while i < x.len() && i < y.len() && x[i] == y[i]
        invariant
            i <= x@.len(),
            i <= y@.len(),
            x@.take(i as int) == y@.take(i as int),
            bytes_le(x@, y@) == bytes_le(x@.skip(i as int), y@.skip(i as int)),
            bytes_le(y@, x@) == bytes_le(y@.skip(i as int), x@.skip(i as int)),
        decreases x@.len() - i,
    {
        proof {
            assert(x@.skip(i as int).drop_first() =~= x@.skip(i + 1));
            assert(y@.skip(i as int).drop_first() =~= y@.skip(i + 1));
            assert(x@.take(i + 1) =~= x@.take(i as int).push(x@[i as int]));
            assert(y@.take(i + 1) =~= y@.take(i as int).push(y@[i as int]));
        }
        i = i + 1;
    }
    if i < x.len() {
        if i < y.len() {
            assert(x@ != y@) by {
                assert(x@[i as int] != y@[i as int]);
            }
            if x[i] < y[i] {
                Standing::Before
            } else {
                Standing::After
            }
        } else {
            assert(x@ != y@);
            Standing::After
        }
    } else if i < y.len() {
        assert(x@ != y@);
        Standing::Before
    } else {
        assert(x@ =~= x@.take(i as int));
        assert(y@ =~= y@.take(i as int));
        Standing::Same
    }
}

/// The texts a list of strings holds.
pub open spec fn texts(list: Seq<String>) -> Seq<Seq<char>> {
    list.map_values(|s: String| s@)
}

/// Lexicographic order of lists of strings.
pub open spec fn texts_le(a: Seq<Seq<char>>, b: Seq<Seq<char>>) -> bool
    decreases a.len(),
{
    if a.len() == 0 {
        true
    } else if b.len() == 0 {
        false
    } else if a[0] != b[0] {
        text_le(a[0], b[0])
    } else {
        texts_le(a.drop_first(), b.drop_first())
    }
}

/// The order of lists of strings is total, and two lists tie only when they are
/// the same.
pub proof fn lemma_texts_total(a: Seq<Seq<char>>, b: Seq<Seq<char>>)
    ensures
        texts_le(a, b) || texts_le(b, a),
        texts_le(a, b) && texts_le(b, a) ==> a == b,
        texts_le(a, a),
    decreases a.len(),
{
    if a.len() == 0 {
        if b.len() == 0 {
            assert(a =~= b);
        }
    } else {
        lemma_texts_total(a.drop_first(), a.drop_first());
        if b.len() > 0 {
            lemma_text_total(a[0], b[0]);
            lemma_texts_total(a.drop_first(), b.drop_first());
            if a[0] == b[0] && a.drop_first() == b.drop_first() {
                assert(a =~= seq![a[0]] + a.drop_first());
                assert(b =~= seq![b[0]] + b.drop_first());
            }
        }
    }
}

/// The order of lists of strings is transitive.
pub proof fn lemma_texts_transitive(a: Seq<Seq<char>>, b: Seq<Seq<char>>, c: Seq<Seq<char>>)
    requires
        texts_le(a, b),
        texts_le(b, c),
    ensures
        texts_le(a, c),
    decreases a.len(),
{
    if a.len() > 0 {
        lemma_text_total(a[0], b[0]);
        lemma_text_total(b[0], c[0]);
        lemma_text_total(a[0], c[0]);
        if a[0] == b[0] && b[0] == c[0] {
            lemma_texts_transitive(a.drop_first(), b.drop_first(), c.drop_first());
        } else if a[0] != b[0] && b[0] != c[0] {
            lemma_text_transitive(a[0], b[0], c[0]);
        }
    }
}

/// A number is its digits from the highest down: one below ten is a single character, and
/// a longer one ends in what is left of it over ten.
pub proof fn lemma_a_number_is_its_digits(n: u64, s: String, front: String)
    requires
        call_ensures(number, (n,), s),
        call_ensures(number, ((n / 10) as u64,), front),
    ensures
        n < 10 ==> s@ == seq![(48 + n) as char],
        n >= 10 ==> s@ == front@.push((48 + n % 10) as char),
{
    if n < 10 {
        assert(s@ =~= seq![(48 + n) as char]);
    } else {
        assert((n / 10) as nat == n as nat / 10);
        assert((n % 10) as nat == n as nat % 10);
    }
}

/// Texts stand in the order of the first byte they differ in, and one that another goes
/// on from stands before it.
pub proof fn lemma_texts_stand_by_their_first_difference(
    a: &str,
    b: &str,
    standing: Standing,
    k: int,
)
    requires
        call_ensures(text_standing, (a, b), standing),
        0 <= k <= encode_utf8(a@).len(),
        k <= encode_utf8(b@).len(),
        encode_utf8(a@).take(k) == encode_utf8(b@).take(k),
    ensures
        k < encode_utf8(b@).len() && (k == encode_utf8(a@).len() || encode_utf8(a@)[k]
            < encode_utf8(b@)[k]) ==> standing == Standing::Before,
        k < encode_utf8(a@).len() && (k == encode_utf8(b@).len() || encode_utf8(b@)[k]
            < encode_utf8(a@)[k]) ==> standing == Standing::After,
        a@ == b@ <==> standing == Standing::Same,
{
    let (x, y) = (encode_utf8(a@), encode_utf8(b@));
    lemma_text_total(a@, b@);
    if k < y.len() && (k == x.len() || x[k] < y[k]) {
        lemma_first_difference(x, y, k);
    }
    if k < x.len() && (k == y.len() || y[k] < x[k]) {
        lemma_first_difference(y, x, k);
    }
}

proof fn lemma_first_difference(x: Seq<u8>, y: Seq<u8>, k: int)
    requires
        0 <= k <= x.len(),
        k < y.len(),
        x.take(k) == y.take(k),
        k == x.len() || x[k] < y[k],
    ensures
        bytes_le(x, y),
        !bytes_le(y, x),
    decreases k,
{
    if k > 0 {
        assert(x[0] == x.take(k)[0] && y[0] == y.take(k)[0]);
        let (p, q) = (x.drop_first(), y.drop_first());
        assert(p.take(k - 1) =~= x.take(k).drop_first());
        assert(q.take(k - 1) =~= y.take(k).drop_first());
        lemma_first_difference(p, q, k - 1);
    }
}

} // verus!
