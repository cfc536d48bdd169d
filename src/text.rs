use vstd::prelude::*;
use vstd::string::StrSliceExecFns;

verus! {

/// Relies on `format!`: the two strings one after the other.
#[verifier::external_body]
pub(crate) fn concat(a: &str, b: &str) -> (r: String)
    ensures
        r@ == a@ + b@,
{
    format!("{}{}", a, b)
}

/// `a`, then `sep`, then `b`.
pub(crate) fn join3(a: &str, sep: &str, b: &str) -> (r: String)
    ensures
        r@ == a@ + sep@ + b@,
{
    let x = concat(a, sep);
    concat(x.as_str(), b)
}

/// The decimal digits of a natural number.
pub open spec fn digits(n: nat) -> Seq<char>
    decreases n,
{
    if n < 10 {
        seq![(('0' as u8) + (n as u8)) as char]
    } else {
        digits(n / 10) + seq![(('0' as u8) + ((n % 10) as u8)) as char]
    }
}

/// The decimal text of an integer, with `-` for a negative one.
pub open spec fn decimal(x: int) -> Seq<char> {
    if x < 0 {
        seq!['-'] + digits((-x) as nat)
    } else {
        digits(x as nat)
    }
}

/// Relies on `Display for i32` (through `ToString`): the decimal digits, with `-` for a
/// negative number.
#[verifier::external_body]
pub(crate) fn int_text(e: i32) -> (r: String)
    ensures
        r@ == decimal(e as int),
{
    e.to_string()
}

/// `(symbol^e)`, with `e` in decimal.
pub(crate) fn power_text(symbol: &str, e: i32) -> (r: String)
    ensures
        r@ == seq!['('] + symbol@ + seq!['^'] + decimal(e as int) + seq![')'],
{
    let digits = int_text(e);
    let head = join3("(", symbol, "^");
    let r = join3(head.as_str(), digits.as_str(), ")");
    proof {
        reveal_strlit("(");
        reveal_strlit("^");
        reveal_strlit(")");
        assert("("@ =~= seq!['(']);
        assert("^"@ =~= seq!['^']);
        assert(")"@ =~= seq![')']);
        assert(r@ =~= seq!['('] + symbol@ + seq!['^'] + decimal(e as int) + seq![')']);
    }
    r
}

/// `a` comes before `b` in the order of characters, a proper prefix first.
pub open spec fn seq_lt(a: Seq<char>, b: Seq<char>) -> bool
    decreases a.len(),
{
    if a.len() == 0 {
        b.len() > 0
    } else if b.len() == 0 {
        false
    } else if a[0] != b[0] {
        a[0] < b[0]
    } else {
        seq_lt(a.drop_first(), b.drop_first())
    }
}

pub proof fn lemma_seq_lt_asym(a: Seq<char>, b: Seq<char>)
    ensures
        seq_lt(a, b) ==> !seq_lt(b, a),
    decreases a.len(),
{
    if a.len() > 0 && b.len() > 0 && a[0] == b[0] {
        lemma_seq_lt_asym(a.drop_first(), b.drop_first());
    }
}

proof fn lemma_seq_lt_skip(a: Seq<char>, b: Seq<char>, i: int)
    requires
        0 <= i <= a.len(),
        i <= b.len(),
        a.subrange(0, i) == b.subrange(0, i),
    ensures
        seq_lt(a, b) == seq_lt(a.subrange(i, a.len() as int), b.subrange(i, b.len() as int)),
    decreases i,
{
    if i > 0 {
        assert(a[0] == a.subrange(0, i)[0]);
        assert(b[0] == b.subrange(0, i)[0]);
        assert(a.drop_first().subrange(0, i - 1) =~= a.subrange(0, i).drop_first());
        assert(b.drop_first().subrange(0, i - 1) =~= b.subrange(0, i).drop_first());
        lemma_seq_lt_skip(a.drop_first(), b.drop_first(), i - 1);
        assert(a.drop_first().subrange(i - 1, a.len() - 1) =~= a.subrange(i, a.len() as int));
        assert(b.drop_first().subrange(i - 1, b.len() - 1) =~= b.subrange(i, b.len() as int));
    } else {
        assert(a.subrange(0, a.len() as int) =~= a);
        assert(b.subrange(0, b.len() as int) =~= b);
    }
}

/// Whether `a` sorts before `b`, character by character.
pub fn str_less(a: &str, b: &str) -> (r: bool)
    ensures
        r == seq_lt(a@, b@),
{
    let n = a.unicode_len();
    let m = b.unicode_len();
    let mut i: usize = 0;
    while i < n && i < m && a.get_char(i) == b.get_char(i)
        invariant
            i <= n,
            i <= m,
            n == a@.len(),
            m == b@.len(),
            a@.subrange(0, i as int) == b@.subrange(0, i as int),
        decreases n - i,
    {
        proof {
            assert(a@.subrange(0, i + 1) =~= a@.subrange(0, i as int).push(a@[i as int]));
            assert(b@.subrange(0, i + 1) =~= b@.subrange(0, i as int).push(b@[i as int]));
        }
        i += 1;
    }
    proof {
        lemma_seq_lt_skip(a@, b@, i as int);
    }
    if i == n {
        return i < m;
    }
    if i == m {
        return false;
    }
    a.get_char(i) < b.get_char(i)
}

/// Position `x` occurs in `r`.
pub open spec fn appears(r: Seq<usize>, x: int) -> bool {
    exists|k: int| 0 <= k < r.len() && r[k] == x
}

/// The positions of `keys` in a stable order of their texts.
pub fn sorted_positions(keys: &Vec<String>) -> (r: Vec<usize>)
    ensures
        r@.len() == keys@.len(),
        forall|k: int| 0 <= k < r@.len() ==> (#[trigger] r@[k]) < keys@.len(),
        forall|i: int| 0 <= i < keys@.len() ==> #[trigger] appears(r@, i),
        forall|k: int| 0 <= k < r@.len() - 1 ==> !seq_lt(keys@[r@[k + 1] as int]@, keys@[#[trigger] r@[k] as int]@),
{
    let mut out: Vec<usize> = Vec::new();
    let mut i: usize = 0;
    while i < keys.len()
        invariant
            i <= keys@.len(),
            out@.len() == i,
            forall|k: int| 0 <= k < out@.len() ==> (#[trigger] out@[k]) < i,
            forall|x: int| 0 <= x < i ==> #[trigger] appears(out@, x),
            forall|k: int| 0 <= k < out@.len() - 1 ==> !seq_lt(keys@[out@[k + 1] as int]@, keys@[#[trigger] out@[k] as int]@),
        decreases keys.len() - i,
    {
        let mut p: usize = 0;
        while p < out.len() && !str_less(keys[i].as_str(), keys[out[p]].as_str())
            invariant
                p <= out@.len(),
                i < keys@.len(),
                forall|k: int| 0 <= k < out@.len() ==> (#[trigger] out@[k]) < i,
                forall|k: int| 0 <= k < p ==> !seq_lt(keys@[i as int]@, keys@[#[trigger] out@[k] as int]@),
            decreases out.len() - p,
        {
            p += 1;
        }
        let ghost before = out@;
        out.insert(p, i);
        proof {
            before.insert_ensures(p as int, i);
            assert forall|x: int| 0 <= x < i + 1 implies #[trigger] appears(out@, x) by {
                if x == i {
                    assert(out@[p as int] == x);
                } else {
                    assert(appears(before, x));
                    let k = choose|k: int| 0 <= k < before.len() && before[k] == x;
                    if k < p {
                        assert(out@[k] == x);
                    } else {
                        assert(out@[k + 1] == x);
                    }
                }
            }
            assert forall|k: int| 0 <= k < out@.len() - 1 implies !seq_lt(keys@[out@[k + 1] as int]@, keys@[#[trigger] out@[k] as int]@) by {
                if k + 1 < p {
                    assert(out@[k] == before[k] && out@[k + 1] == before[k + 1]);
                } else if k + 1 == p {
                    assert(out@[k] == before[k]);
                } else if k == p {
                    assert(out@[k + 1] == before[k]);
                    lemma_seq_lt_asym(keys@[i as int]@, keys@[before[k] as int]@);
                } else {
                    assert(out@[k] == before[k - 1] && out@[k + 1] == before[k]);
                }
            }
        }
        i += 1;
    }
    out
}

} // verus!
