//! Names: how they are ordered, how blobs are named, and how paths are put together.

use vstd::prelude::*;
use vstd::string::*;
use vstd::utf8::*;

verus! {

/// How one name stands to another.
#[derive(Clone, Copy, Debug, PartialEq, Eq, Structural)]
pub enum NameOrder {
    Before,
    Same,
    After,
}

/// `a` and `b` agree before position `k`, and at `k` either `a` has ended while `b` goes on, or
/// `a` holds the smaller byte.
pub open spec fn parts_below(a: Seq<u8>, b: Seq<u8>, k: int) -> bool {
    &&& 0 <= k <= a.len()
    &&& k < b.len()
    &&& forall|i: int| 0 <= i < k ==> a[i] == b[i]
    &&& k == a.len() || a[k] < b[k]
}

/// Byte strings in lexicographic order.
pub open spec fn bytes_before(a: Seq<u8>, b: Seq<u8>) -> bool {
    exists|k: int| parts_below(a, b, k)
}

/// Names are ordered by the bytes of their UTF-8 encoding.
pub open spec fn name_before(a: Seq<char>, b: Seq<char>) -> bool {
    bytes_before(encode_utf8(a), encode_utf8(b))
}

/// No name stands before itself.
pub proof fn name_before_is_irreflexive(a: Seq<char>)
    ensures
        !name_before(a, a),
{
}

/// The order of names is transitive.
pub proof fn name_before_is_transitive(a: Seq<char>, b: Seq<char>, c: Seq<char>)
    requires
        name_before(a, b),
        name_before(b, c),
    ensures
        name_before(a, c),
{
    let x = encode_utf8(a);
    let y = encode_utf8(b);
    let z = encode_utf8(c);
    let j = choose|k: int| parts_below(x, y, k);
    let k = choose|k: int| parts_below(y, z, k);
    if j <= k {
        assert(parts_below(x, z, j));
    } else {
        assert(parts_below(x, z, k));
    }
}

/// Two names never stand before each other.
pub proof fn name_before_is_asymmetric(a: Seq<char>, b: Seq<char>)
    requires
        name_before(a, b),
    ensures
        !name_before(b, a),
        a != b,
{
    if name_before(b, a) {
        name_before_is_transitive(a, b, a);
    }
    name_before_is_irreflexive(a);
}

/// Compares two names.
pub fn order_names(a: &str, b: &str) -> (r: NameOrder)
    ensures
        r is Before <==> name_before(a@, b@),
        r is Same <==> a@ == b@,
        r is After <==> name_before(b@, a@),
{
    broadcast use encode_utf8_decode_utf8;

    let x = a.as_bytes();
    let y = b.as_bytes();
    let mut i: usize = 0;
    while i < x.len() && i < y.len() && x[i] == y[i]
        invariant
            i <= x@.len(),
            i <= y@.len(),
            forall|j: int| 0 <= j < i ==> x@[j] == y@[j],
        decreases x@.len() - i,
    {
        i += 1;
    }
    let ghost bx = encode_utf8(a@);
    let ghost by = encode_utf8(b@);
    if i == x.len() && i == y.len() {
        proof {
            assert(bx =~= by);
            name_before_is_irreflexive(a@);
            assert(decode_utf8(bx) == decode_utf8(by));
        }
        NameOrder::Same
    } else if i == x.len() || (i < y.len() && x[i] < y[i]) {
        proof {
            assert(parts_below(bx, by, i as int));
            name_before_is_asymmetric(a@, b@);
        }
        NameOrder::Before
    } else {
        proof {
            assert(parts_below(by, bx, i as int));
            name_before_is_asymmetric(b@, a@);
        }
        NameOrder::After
    }
}

/// The character of a decimal digit.
pub open spec fn digit(d: nat) -> char {
    ('0' as u32 + d) as char
}

/// A number in decimal, without leading zeros.
pub open spec fn decimal(n: nat) -> Seq<char>
    decreases n,
{
    if n < 10 {
        seq![digit(n)]
    } else {
        decimal(n / 10).push(digit(n % 10))
    }
}

/// A number in decimal, filled with zeros on the left up to `width` characters.
pub open spec fn zero_padded(n: nat, width: nat) -> Seq<char> {
    let digits = decimal(n);
    Seq::new(
        (if digits.len() < width { width - digits.len() } else { 0 }) as nat,
        |i: int| '0',
    ) + digits
}

/// The number that a sequence of decimal digits stands for.
pub open spec fn decimal_value(s: Seq<char>) -> int
    decreases s.len(),
{
    if s.len() == 0 {
        0
    } else {
        decimal_value(s.drop_last()) * 10 + (s.last() as int - '0' as int)
    }
}

/// What stands in front of the number in the name of a blob.
pub open spec fn blob_prefix() -> Seq<char> {
    seq!['b', 'l', 'o', 'b', '-']
}

/// The name of the blob with number `n`: its number in at least twelve digits.
pub open spec fn blob_name_of(n: nat) -> Seq<char> {
    blob_prefix() + zero_padded(n, 12)
}

proof fn lemma_zero_padded_step(n: nat, width: nat)
    requires
        width > 1,
    ensures
        zero_padded(n, width) == zero_padded(n / 10, (width - 1) as nat).push(digit(n % 10)),
{
    if n < 10 {
        assert(decimal(n / 10) =~= seq![digit(0)]);
        assert(digit(0) == '0');
    }
    assert(zero_padded(n, width) =~= zero_padded(n / 10, (width - 1) as nat).push(digit(n % 10)));
}

proof fn lemma_digit_value(d: nat)
    requires
        d < 10,
    ensures
        digit(d) as int - '0' as int == d,
{
}

proof fn lemma_decimal_value(n: nat)
    ensures
        decimal_value(decimal(n)) == n,
        decimal(n).len() > 0,
    decreases n,
{
    lemma_digit_value(n % 10);
    if n < 10 {
        reveal_with_fuel(decimal_value, 2);
        lemma_digit_value(n);
        assert(decimal(n).drop_last() =~= Seq::<char>::empty());
    } else {
        lemma_decimal_value(n / 10);
        assert(decimal(n).drop_last() =~= decimal(n / 10));
    }
}

proof fn lemma_zero_padded_value(n: nat, width: nat)
    ensures
        decimal_value(zero_padded(n, width)) == n,
    decreases width,
{
    lemma_decimal_value(n);
    if width <= 1 {
        assert(zero_padded(n, width) =~= decimal(n));
    } else {
        lemma_zero_padded_step(n, width);
        lemma_zero_padded_value(n / 10, (width - 1) as nat);
        lemma_digit_value(n % 10);
        let shorter = zero_padded(n / 10, (width - 1) as nat);
        assert(zero_padded(n, width).drop_last() =~= shorter);
    }
}

/// Blobs with different numbers have different names.
pub proof fn blob_names_are_distinct(m: nat, n: nat)
    requires
        m != n,
    ensures
        blob_name_of(m) != blob_name_of(n),
{
    lemma_zero_padded_value(m, 12);
    lemma_zero_padded_value(n, 12);
    if blob_name_of(m) == blob_name_of(n) {
        assert(zero_padded(m, 12) =~= blob_name_of(m).skip(5));
        assert(zero_padded(n, 12) =~= blob_name_of(n).skip(5));
    }
}

proof fn lemma_decimal_digits(n: nat)
    ensures
        decimal(n).len() > 0,
        forall|i: int| 0 <= i < decimal(n).len() ==> '0' <= #[trigger] decimal(n)[i] <= '9',
        n > 0 ==> decimal(n)[0] != '0',
    decreases n,
{
    lemma_digit_value(n % 10);
    if n < 10 {
        lemma_digit_value(n);
    } else {
        lemma_decimal_digits(n / 10);
    }
}

/// The name of a blob is a fixed beginning and its number in decimal, in twelve digits, or in as
/// many as it takes where it takes more.
pub proof fn blob_name_tells_its_number(n: nat)
    ensures
        ({
            let name = blob_name_of(n);
            &&& name.len() >= 17
            &&& name.take(5) == "blob-"@
            &&& forall|i: int| 5 <= i < name.len() ==> '0' <= #[trigger] name[i] <= '9'
            &&& decimal_value(name.skip(5)) == n
            &&& name.len() > 17 ==> name[5] != '0'
        }),
{
    let name = blob_name_of(n);
    reveal_strlit("blob-");
    lemma_zero_padded_value(n, 12);
    lemma_decimal_digits(n);
    assert(name.take(5) =~= "blob-"@);
    assert(name.skip(5) =~= zero_padded(n, 12));
    let at = name.len() - decimal(n).len();
    assert forall|i: int| 5 <= i < name.len() implies '0' <= #[trigger] name[i] <= '9' by {
        if i >= at {
            assert(name[i] == decimal(n)[i - at]);
        } else {
            assert(name[i] == zero_padded(n, 12)[i - 5]);
        }
    }
    if name.len() > 17 {
        assert(name[5] == decimal(n)[0]);
        if n == 0 {
            assert(decimal(n).len() == 1);
        }
    }
}

fn append_digit(s: &mut String, d: u64)
    requires
        d < 10,
    ensures
        final(s)@ == old(s)@.push(digit(d as nat)),
{
    let one = if d == 0 {
        proof { reveal_strlit("0"); }
        "0"
    } else if d == 1 {
        proof { reveal_strlit("1"); }
        "1"
    } else if d == 2 {
        proof { reveal_strlit("2"); }
        "2"
    } else if d == 3 {
        proof { reveal_strlit("3"); }
        "3"
    } else if d == 4 {
        proof { reveal_strlit("4"); }
        "4"
    } else if d == 5 {
        proof { reveal_strlit("5"); }
        "5"
    } else if d == 6 {
        proof { reveal_strlit("6"); }
        "6"
    } else if d == 7 {
        proof { reveal_strlit("7"); }
        "7"
    } else if d == 8 {
        proof { reveal_strlit("8"); }
        "8"
    } else {
        proof { reveal_strlit("9"); }
        "9"
    };
    s.append(one);
    assert(s@ =~= old(s)@.push(digit(d as nat)));
}

fn append_decimal(s: &mut String, n: u64)
    ensures
        final(s)@ == old(s)@ + decimal(n as nat),
    decreases n,
{
    if n < 10 {
        append_digit(s, n);
        assert(s@ =~= old(s)@ + decimal(n as nat));
    } else {
        append_decimal(s, n / 10);
        append_digit(s, n % 10);
        assert(s@ =~= old(s)@ + decimal(n as nat));
    }
}

fn append_zero_padded(s: &mut String, n: u64, width: u64)
    ensures
        final(s)@ == old(s)@ + zero_padded(n as nat, width as nat),
    decreases width,
{
    if width <= 1 {
        proof {
            lemma_decimal_value(n as nat);
            assert(zero_padded(n as nat, width as nat) =~= decimal(n as nat));
        }
        append_decimal(s, n);
    } else {
        proof { lemma_zero_padded_step(n as nat, width as nat); }
        append_zero_padded(s, n / 10, width - 1);
        append_digit(s, n % 10);
        assert(s@ =~= old(s)@ + zero_padded(n as nat, width as nat));
    }
}

/// The name of the blob with number `n`.
pub fn blob_name(n: u64) -> (r: String)
    ensures
        r@ == blob_name_of(n as nat),
{
    let mut name = String::from_str("blob-");
    proof {
        reveal_strlit("blob-");
        assert(name@ =~= blob_prefix());
    }
    append_zero_padded(&mut name, n, 12);
    name
}

/// Path `part` taken from directory `base`: an absolute `part` stands alone, any other follows
/// `base` after one separator, which `base` may already end with.
pub open spec fn joined(base: Seq<char>, part: Seq<char>) -> Seq<char> {
    if part.len() > 0 && part[0] == '/' {
        part
    } else if base.len() == 0 || base.last() == '/' {
        base + part
    } else {
        base.push('/') + part
    }
}

/// A path that is not absolute follows the directory that it is taken from, with just one separator
/// in between unless the directory ends in one or has no name; an absolute path stands alone.
pub proof fn path_follows_its_directory(base: Seq<char>, part: Seq<char>)
    ensures
        ({
            let path = joined(base, part);
            let at = path.len() - part.len();
            &&& path.len() >= part.len()
            &&& path.skip(at) == part
            &&& part.len() > 0 && part[0] == '/' ==> at == 0
            &&& part.len() == 0 || part[0] != '/' ==> {
                &&& at >= base.len()
                &&& path.take(base.len() as int) == base
                &&& if base.len() == 0 || base.last() == '/' {
                    at == base.len()
                } else {
                    at == base.len() + 1 && path[base.len() as int] == '/'
                }
            }
        }),
{
    let path = joined(base, part);
    assert(path.skip(path.len() - part.len()) =~= part);
    if part.len() == 0 || part[0] != '/' {
        assert(path.take(base.len() as int) =~= base);
    }
}

/// Joins `part` to the directory `base`.
pub fn join_path(base: &str, part: &str) -> (r: String)
    ensures
        r@ == joined(base@, part@),
{
    if !part.is_empty() && part.get_char(0) == '/' {
        return String::from_str(part);
    }
    let mut path = String::from_str(base);
    let n: usize = base.unicode_len();
    if n > 0 && base.get_char(n - 1) != '/' {
        path.append("/");
        proof {
            reveal_strlit("/");
            assert(path@ =~= base@.push('/'));
        }
    }
    path.append(part);
    path
}

} // verus!
