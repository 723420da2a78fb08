//! Names of the objects that hold the blocks of a slice.
use vstd::prelude::*;
use vstd::string::StringExecFns;

verus! {

/// The slice id of a slice that has none yet.
pub const EMPTY_SLICE_ID: u64 = 0;

/// The decimal digits of `n`, most significant first, without leading zeros.
pub open spec fn decimal(n: nat) -> Seq<char>
    decreases n,
{
    if n < 10 {
        seq![digit_char(n)]
    } else {
        decimal(n / 10).push(digit_char(n % 10))
    }
}

/// The character of the digit `d`.
pub open spec fn digit_char(d: nat) -> char {
    if d == 0 {
        '0'
    } else if d == 1 {
        '1'
    } else if d == 2 {
        '2'
    } else if d == 3 {
        '3'
    } else if d == 4 {
        '4'
    } else if d == 5 {
        '5'
    } else if d == 6 {
        '6'
    } else if d == 7 {
        '7'
    } else if d == 8 {
        '8'
    } else {
        '9'
    }
}

/// The name of the object that holds block `block_index`, of `block_size`
/// bytes, of slice `slice_id`:
/// `chunks/<id / 1000000>/<id / 1000>/<id>_<index>_<size>`.
pub open spec fn object_key(slice_id: u64, block_index: usize, block_size: usize) -> Seq<char> {
    "chunks/"@ + decimal((slice_id / 1000000) as nat) + "/"@ + decimal((slice_id / 1000) as nat)
        + "/"@ + decimal(slice_id as nat) + "_"@ + decimal(block_index as nat) + "_"@ + decimal(
        block_size as nat,
    )
}

fn digit_str(d: u8) -> (s: &'static str)
    requires
        d < 10,
    ensures
        s@ == seq![digit_char(d as nat)],
{
    proof {
        reveal_strlit("0");
        reveal_strlit("1");
        reveal_strlit("2");
        reveal_strlit("3");
        reveal_strlit("4");
        reveal_strlit("5");
        reveal_strlit("6");
        reveal_strlit("7");
        reveal_strlit("8");
        reveal_strlit("9");
    }
    let s = if d == 0 {
        "0"
    } else if d == 1 {
        "1"
    } else if d == 2 {
        "2"
    } else if d == 3 {
        "3"
    } else if d == 4 {
        "4"
    } else if d == 5 {
        "5"
    } else if d == 6 {
        "6"
    } else if d == 7 {
        "7"
    } else if d == 8 {
        "8"
    } else {
        "9"
    };
    assert(s@ =~= seq![digit_char(d as nat)]);
    s
}

/// The digits of `low`, least significant first, spell `decimal` backwards.
spec fn spelled(low: Seq<u8>) -> Seq<char>
    decreases low.len(),
{
    if low.len() == 0 {
        Seq::<char>::empty()
    } else {
        seq![digit_char(low.last() as nat)] + spelled(low.drop_last())
    }
}

/// Appends the decimal digits of `n` to `out`.
fn push_decimal(out: &mut String, n: u64)
    ensures
        final(out)@ == old(out)@ + decimal(n as nat),
{
    let mut low: Vec<u8> = Vec::new();
    let mut rest: u64 = n;
    low.push((rest % 10) as u8);
    rest = rest / 10;
    proof {
        assert(low@.drop_last() =~= Seq::<u8>::empty());
        assert(spelled(low@.drop_last()) =~= Seq::<char>::empty());
        assert(spelled(low@) =~= seq![digit_char((n % 10) as nat)]);
    }
    while rest > 0
        invariant
            forall|i: int| 0 <= i < low.len() ==> low[i] < 10,
            low.len() > 0,
            rest == 0 ==> decimal(n as nat) == spelled(low@),
            rest > 0 ==> decimal(n as nat) == decimal(rest as nat) + spelled(low@),
        decreases rest,
    {
        let ghost before = low@;
        let d: u8 = (rest % 10) as u8;
        low.push(d);
        proof {
            assert(low@.drop_last() =~= before);
            assert(spelled(low@) == seq![digit_char(d as nat)] + spelled(before));
            if rest < 10 {
                assert(decimal(rest as nat) =~= seq![digit_char(d as nat)]);
                assert(decimal(n as nat) =~= spelled(low@));
            } else {
                assert(decimal(rest as nat) == decimal((rest / 10) as nat).push(
                    digit_char(d as nat),
                ));
                assert(decimal(n as nat) =~= decimal((rest / 10) as nat) + spelled(low@));
            }
        }
        rest = rest / 10;
    }
    let mut k: usize = low.len();
    assert(low@.take(k as int) =~= low@);
    while k > 0
        invariant
            k <= low.len(),
            forall|i: int| 0 <= i < low.len() ==> low[i] < 10,
            out@ + spelled(low@.take(k as int)) == old(out)@ + spelled(low@),
        decreases k,
    {
        proof {
            let head = low@.take(k as int);
            assert(head.drop_last() =~= low@.take(k - 1));
            assert(head.last() == low[k - 1]);
            assert(out@ + (seq![digit_char(low[k - 1] as nat)] + spelled(low@.take(k - 1)))
                =~= (out@ + seq![digit_char(low[k - 1] as nat)]) + spelled(low@.take(k - 1)));
        }
        k = k - 1;
        out.append(digit_str(low[k]));
    }
    proof {
        assert(low@.take(low.len() as int) =~= low@);
        assert(spelled(low@.take(0)) =~= Seq::<char>::empty());
        assert(out@ + Seq::<char>::empty() =~= out@);
    }
}

/// The name of the object that holds one block of a slice. The writer and
/// the reader of a block derive its name from this one function.
pub fn make_slice_object_key(slice_id: u64, block_index: usize, block_size: usize) -> (key: String)
    ensures
        key@ == object_key(slice_id, block_index, block_size),
{
    let mut key = String::from_str("chunks/");
    push_decimal(&mut key, slice_id / 1000000);
    key.append("/");
    push_decimal(&mut key, slice_id / 1000);
    key.append("/");
    push_decimal(&mut key, slice_id);
    key.append("_");
    push_decimal(&mut key, block_index as u64);
    key.append("_");
    push_decimal(&mut key, block_size as u64);
    key
}

/// Whether `c` is a decimal digit.
pub open spec fn is_digit(c: char) -> bool {
    c == '0' || c == '1' || c == '2' || c == '3' || c == '4' || c == '5' || c == '6' || c == '7'
        || c == '8' || c == '9'
}

/// The decimal digits of a number are digits, at least one, and more than
/// one only for ten and above.
pub proof fn lemma_decimal_digits(n: nat)
    ensures
        decimal(n).len() >= 1,
        decimal(n).len() == 1 <==> n < 10,
        forall|i: int| 0 <= i < decimal(n).len() ==> is_digit(#[trigger] decimal(n)[i]),
    decreases n,
{
    if n >= 10 {
        lemma_decimal_digits(n / 10);
    }
}

/// Two numbers with the same decimal digits are the same number.
pub proof fn lemma_decimal_injective(a: nat, b: nat)
    requires
        decimal(a) == decimal(b),
    ensures
        a == b,
    decreases a,
{
    lemma_decimal_digits(a);
    lemma_decimal_digits(b);
    if a < 10 {
        assert(decimal(a)[0] == digit_char(a));
        assert(decimal(b)[0] == digit_char(b));
    } else {
        let da = decimal(a / 10).push(digit_char(a % 10));
        let db = decimal(b / 10).push(digit_char(b % 10));
        assert(da == db);
        assert(da.drop_last() =~= decimal(a / 10));
        assert(db.drop_last() =~= decimal(b / 10));
        assert(da.last() == digit_char(a % 10));
        assert(db.last() == digit_char(b % 10));
        lemma_decimal_injective(a / 10, b / 10);
    }
}

/// A text that ends in a separator and digits is cut in one way only into
/// what stands before the separator and the digits behind it.
proof fn lemma_split_at_last(x: Seq<char>, u: Seq<char>, y: Seq<char>, v: Seq<char>, sep: char)
    requires
        !is_digit(sep),
        forall|i: int| 0 <= i < u.len() ==> is_digit(#[trigger] u[i]),
        forall|i: int| 0 <= i < v.len() ==> is_digit(#[trigger] v[i]),
        x.push(sep) + u == y.push(sep) + v,
    ensures
        x == y,
        u == v,
{
    let l = x.push(sep) + u;
    let r = y.push(sep) + v;
    assert(l.len() == x.len() + 1 + u.len());
    assert(r.len() == y.len() + 1 + v.len());
    if u.len() < v.len() {
        let k = x.len() as int;
        assert(l[k] == sep);
        assert(r[k] == v[k - y.len() - 1]);
        assert(false);
    }
    if v.len() < u.len() {
        let k = y.len() as int;
        assert(r[k] == sep);
        assert(l[k] == u[k - x.len() - 1]);
        assert(false);
    }
    assert(x =~= y) by {
        assert forall|i: int| 0 <= i < x.len() implies x[i] == y[i] by {
            assert(l[i] == x[i]);
            assert(r[i] == y[i]);
        }
    }
    assert(u =~= v) by {
        assert forall|i: int| 0 <= i < u.len() implies u[i] == v[i] by {
            assert(l[x.len() + 1 + i] == u[i]);
            assert(r[y.len() + 1 + i] == v[i]);
        }
    }
}

/// What stands in an object's name before the slice id.
spec fn key_head(slice_id: u64) -> Seq<char> {
    "chunks/"@ + decimal((slice_id / 1000000) as nat) + "/"@ + decimal((slice_id / 1000) as nat)
}

/// What stands in an object's name before the block index.
spec fn key_body(slice_id: u64) -> Seq<char> {
    key_head(slice_id).push('/') + decimal(slice_id as nat)
}

/// What stands in an object's name before the block size.
spec fn key_front(slice_id: u64, block_index: usize) -> Seq<char> {
    key_body(slice_id).push('_') + decimal(block_index as nat)
}

proof fn lemma_key_shape(slice_id: u64, block_index: usize, block_size: usize)
    ensures
        object_key(slice_id, block_index, block_size) == key_front(slice_id, block_index).push(
            '_',
        ) + decimal(block_size as nat),
{
    reveal_strlit("/");
    reveal_strlit("_");
    assert("/"@ =~= seq!['/']);
    assert("_"@ =~= seq!['_']);
    let h = key_head(slice_id);
    let a = decimal(slice_id as nat);
    let b = decimal(block_index as nat);
    let c = decimal(block_size as nat);
    assert(h + seq!['/'] + a + seq!['_'] + b + seq!['_'] + c =~= key_front(
        slice_id,
        block_index,
    ).push('_') + c);
}

/// Different blocks have different names: the name of an object says of
/// which slice it holds which block of which size.
pub proof fn lemma_object_key_injective(
    slice_a: u64,
    index_a: usize,
    size_a: usize,
    slice_b: u64,
    index_b: usize,
    size_b: usize,
)
    requires
        object_key(slice_a, index_a, size_a) == object_key(slice_b, index_b, size_b),
    ensures
        slice_a == slice_b,
        index_a == index_b,
        size_a == size_b,
{
    lemma_key_shape(slice_a, index_a, size_a);
    lemma_key_shape(slice_b, index_b, size_b);
    lemma_decimal_digits(slice_a as nat);
    lemma_decimal_digits(slice_b as nat);
    lemma_decimal_digits(index_a as nat);
    lemma_decimal_digits(index_b as nat);
    lemma_decimal_digits(size_a as nat);
    lemma_decimal_digits(size_b as nat);
    lemma_split_at_last(
        key_front(slice_a, index_a),
        decimal(size_a as nat),
        key_front(slice_b, index_b),
        decimal(size_b as nat),
        '_',
    );
    lemma_split_at_last(
        key_body(slice_a),
        decimal(index_a as nat),
        key_body(slice_b),
        decimal(index_b as nat),
        '_',
    );
    lemma_split_at_last(
        key_head(slice_a),
        decimal(slice_a as nat),
        key_head(slice_b),
        decimal(slice_b as nat),
        '/',
    );
    lemma_decimal_injective(slice_a as nat, slice_b as nat);
    lemma_decimal_injective(index_a as nat, index_b as nat);
    lemma_decimal_injective(size_a as nat, size_b as nat);
}

} // verus!
