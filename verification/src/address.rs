//! Addresses of resources, components and templates as 32 plain bytes, the
//! text form of a resource address, and the canonical order of a resource
//! pair (lexicographic on that text).

use tari_template_lib_types::{ObjectKey, ResourceAddress};
use vstd::prelude::*;

verus! {

/// The 32-byte key of a resource (a token kind), e.g. the two sides of a pool.
#[derive(Clone, Copy)]
pub struct ResourceId {
    pub bytes: [u8; 32],
}

/// The 32-byte key of a component (a deployed template instance).
#[derive(Clone, Copy)]
pub struct ComponentId {
    pub bytes: [u8; 32],
}

/// The 32-byte hash of a published template.
#[derive(Clone, Copy)]
pub struct TemplateId {
    pub bytes: [u8; 32],
}

/// Byte-wise comparison of two 32-byte keys.
fn bytes_equal(a: &[u8; 32], b: &[u8; 32]) -> (res: bool)
    ensures
        res == (*a == *b),
{
    let mut i: usize = 0;
    while i < 32
        invariant
            0 <= i <= 32,
            forall|j: int| 0 <= j < i ==> a@[j] == b@[j],
        decreases 32 - i,
    {
        if a[i] != b[i] {
            return false;
        }
        i += 1;
    }
    assert(*a =~= *b);
    true
}

impl ResourceId {
    /// Whether two resource keys are the same resource.
    pub fn same_as(&self, other: &ResourceId) -> (res: bool)
        ensures
            res == (*self == *other),
    {
        bytes_equal(&self.bytes, &other.bytes)
    }
}

impl ComponentId {
    /// Whether two component keys are the same component.
    pub fn same_as(&self, other: &ComponentId) -> (res: bool)
        ensures
            res == (*self == *other),
    {
        bytes_equal(&self.bytes, &other.bytes)
    }
}

impl TemplateId {
    /// Whether two template hashes are the same template.
    pub fn same_as(&self, other: &TemplateId) -> (res: bool)
        ensures
            res == (*self == *other),
    {
        bytes_equal(&self.bytes, &other.bytes)
    }
}

/// The lower-case hexadecimal digits, indexed by their value.
pub open spec fn hex_digits() -> Seq<char> {
    seq!['0', '1', '2', '3', '4', '5', '6', '7', '8', '9', 'a', 'b', 'c', 'd', 'e', 'f']
}

/// Lower-case hexadecimal, two digits per byte, high nibble first.
pub open spec fn hex_lower(bytes: Seq<u8>) -> Seq<char>
    decreases bytes.len(),
{
    if bytes.len() == 0 {
        Seq::empty()
    } else {
        seq![hex_digits()[(bytes[0] / 16) as int], hex_digits()[(bytes[0] % 16) as int]] + hex_lower(
            bytes.drop_first(),
        )
    }
}

/// The text `resource_` that starts every rendered resource address.
pub open spec fn resource_prefix() -> Seq<char> {
    seq!['r', 'e', 's', 'o', 'u', 'r', 'c', 'e', '_']
}

/// The text form of a resource address.
pub open spec fn resource_text(bytes: Seq<u8>) -> Seq<char> {
    resource_prefix() + hex_lower(bytes)
}

/// Renders a resource address with `Display for ResourceAddress` of
/// tari_template_lib_types (through `ToString`). Its source writes `resource`,
/// an underscore, then the key's 32 bytes as `{:02x}` each: lower-case hex,
/// two digits per byte, high nibble first.
#[verifier::external_body]
fn resource_address_string(r: &ResourceId) -> (s: String)
    ensures
        s@ == resource_text(r.bytes@),
{
    ResourceAddress::new(ObjectKey::from_array(r.bytes)).to_string()
}

/// `i` is the first index at which `a` and `b` hold different characters.
pub open spec fn first_difference_at(a: Seq<char>, b: Seq<char>, i: int) -> bool {
    &&& 0 <= i < a.len()
    &&& i < b.len()
    &&& a.take(i) == b.take(i)
    &&& a[i] != b[i]
}

/// Lexicographic `a <= b` on texts, comparing characters by code point: `a` is
/// a prefix of `b`, or at the first difference `a` holds the smaller character.
pub open spec fn text_le(a: Seq<char>, b: Seq<char>) -> bool {
    ||| (a.len() <= b.len() && a == b.take(a.len() as int))
    ||| exists|i: int| #[trigger] first_difference_at(a, b, i) && (a[i] as int) < (b[i] as int)
}

/// Lexicographic comparison of two texts by code point, as `<=` on `String`
/// orders them (byte order of UTF-8 is code point order).
pub fn text_le_exec(a: &str, b: &str) -> (res: bool)
    ensures
        res == text_le(a@, b@),
{
    let la = a.unicode_len();
    let lb = b.unicode_len();
    let mut i: usize = 0;
    while i < la && i < lb
        invariant
            la == a@.len(),
            lb == b@.len(),
            i <= la,
            i <= lb,
            a@.take(i as int) == b@.take(i as int),
        decreases la - i,
    {
        let ca = a.get_char(i);
        let cb = b.get_char(i);
        if ca != cb {
            proof {
                assert(first_difference_at(a@, b@, i as int));
                lemma_first_difference_unique(a@, b@, i as int);
            }
            return (ca as u32) < (cb as u32);
        }
        assert(a@.take(i + 1) =~= b@.take(i + 1)) by {
            assert(a@.take(i + 1) =~= a@.take(i as int).push(ca));
            assert(b@.take(i + 1) =~= b@.take(i as int).push(cb));
        }
        i += 1;
    }
    proof {
        if la <= lb {
            assert(a@.take(la as int) =~= a@);
        } else {
            assert forall|j: int| !#[trigger] first_difference_at(a@, b@, j) by {
                if first_difference_at(a@, b@, j) {
                    assert(a@.take(i as int)[j] == a@[j]);
                    assert(b@.take(i as int)[j] == b@[j]);
                }
            }
        }
    }
    la <= lb
}

/// There is only one first difference between two texts.
proof fn lemma_first_difference_unique(a: Seq<char>, b: Seq<char>, i: int)
    requires
        first_difference_at(a, b, i),
    ensures
        forall|j: int| #[trigger] first_difference_at(a, b, j) ==> j == i,
{
    assert forall|j: int| #[trigger] first_difference_at(a, b, j) implies j == i by {
        if j < i {
            assert(a.take(i)[j] == a[j]);
            assert(b.take(i)[j] == b[j]);
        } else if j > i {
            assert(a.take(j)[i] == a[i]);
            assert(b.take(j)[i] == b[i]);
        }
    }
}

/// The canonical order of a resource pair: by the text of the address.
pub open spec fn canonical_order(x: ResourceId, y: ResourceId) -> (ResourceId, ResourceId) {
    if text_le(resource_text(x.bytes@), resource_text(y.bytes@)) {
        (x, y)
    } else {
        (y, x)
    }
}

/// Sorts two resources into canonical `(a, b)` order using lexicographic
/// comparison of their rendered addresses.
pub fn canonical_pair(x: ResourceId, y: ResourceId) -> (res: (ResourceId, ResourceId))
    ensures
        res == canonical_order(x, y),
{
    let sx = resource_address_string(&x);
    let sy = resource_address_string(&y);
    if text_le_exec(sx.as_str(), sy.as_str()) {
        (x, y)
    } else {
        (y, x)
    }
}

/// Each byte of a key gives two hex digits, at positions `2k` and `2k + 1`.
proof fn lemma_hex_lower_digits(bytes: Seq<u8>)
    ensures
        hex_lower(bytes).len() == 2 * bytes.len(),
        forall|k: int|
            0 <= k < bytes.len() ==> {
                &&& #[trigger] hex_lower(bytes)[2 * k] == hex_digits()[(bytes[k] / 16) as int]
                &&& hex_lower(bytes)[2 * k + 1] == hex_digits()[(bytes[k] % 16) as int]
            },
    decreases bytes.len(),
{
    if bytes.len() > 0 {
        let rest = bytes.drop_first();
        lemma_hex_lower_digits(rest);
        assert forall|k: int| 0 <= k < bytes.len() implies {
            &&& #[trigger] hex_lower(bytes)[2 * k] == hex_digits()[(bytes[k] / 16) as int]
            &&& hex_lower(bytes)[2 * k + 1] == hex_digits()[(bytes[k] % 16) as int]
        } by {
            if k > 0 {
                assert(rest[k - 1] == bytes[k]);
                assert(hex_lower(rest)[2 * (k - 1)] == hex_digits()[(rest[k - 1] / 16) as int]);
            }
        }
    }
}

/// Different values give different hex digits.
proof fn lemma_hex_digits_distinct(i: int, j: int)
    requires
        0 <= i < 16,
        0 <= j < 16,
        hex_digits()[i] == hex_digits()[j],
    ensures
        i == j,
{
}

/// Different keys are rendered as different texts.
proof fn lemma_resource_text_injective(x: ResourceId, y: ResourceId)
    requires
        resource_text(x.bytes@) == resource_text(y.bytes@),
    ensures
        x == y,
{
    let tx = resource_text(x.bytes@);
    let ty = resource_text(y.bytes@);
    lemma_hex_lower_digits(x.bytes@);
    lemma_hex_lower_digits(y.bytes@);
    let p = resource_prefix().len() as int;
    assert forall|k: int| 0 <= k < 32 implies x.bytes@[k] == y.bytes@[k] by {
        assert(tx[p + 2 * k] == hex_lower(x.bytes@)[2 * k]);
        assert(ty[p + 2 * k] == hex_lower(y.bytes@)[2 * k]);
        assert(tx[p + 2 * k + 1] == hex_lower(x.bytes@)[2 * k + 1]);
        assert(ty[p + 2 * k + 1] == hex_lower(y.bytes@)[2 * k + 1]);
        let (hx, hy) = ((x.bytes@[k] / 16) as int, (y.bytes@[k] / 16) as int);
        let (lx, ly) = ((x.bytes@[k] % 16) as int, (y.bytes@[k] % 16) as int);
        lemma_hex_digits_distinct(hx, hy);
        lemma_hex_digits_distinct(lx, ly);
    }
    assert(x.bytes =~= y.bytes);
}

/// Two texts that differ and have the same length have a first difference.
proof fn lemma_find_first_difference(a: Seq<char>, b: Seq<char>, i: int) -> (k: int)
    requires
        a.len() == b.len(),
        a != b,
        0 <= i <= a.len(),
        a.take(i) == b.take(i),
    ensures
        first_difference_at(a, b, k),
    decreases a.len() - i,
{
    if i == a.len() {
        assert(a =~= a.take(i));
        assert(b =~= b.take(i));
        i
    } else if a[i] != b[i] {
        i
    } else {
        assert(a.take(i + 1) =~= a.take(i).push(a[i]));
        assert(b.take(i + 1) =~= b.take(i).push(b[i]));
        lemma_find_first_difference(a, b, i + 1)
    }
}

/// For two different texts of one length, exactly one is below the other.
proof fn lemma_text_le_strict_total(a: Seq<char>, b: Seq<char>)
    requires
        a.len() == b.len(),
        a != b,
    ensures
        text_le(a, b) != text_le(b, a),
{
    assert(a.take(0) =~= b.take(0));
    let k = lemma_find_first_difference(a, b, 0);
    lemma_first_difference_unique(a, b, k);
    assert(first_difference_at(b, a, k));
    lemma_first_difference_unique(b, a, k);
    assert(a.take(a.len() as int) =~= a);
    assert(b.take(b.len() as int) =~= b);
    assert((a[k] as int) != (b[k] as int));
}

/// The canonical order of a pair of different resources does not depend on
/// the order in which the pair is given.
pub proof fn lemma_canonical_order_symmetric(x: ResourceId, y: ResourceId)
    requires
        x != y,
    ensures
        canonical_order(x, y) == canonical_order(y, x),
{
    let tx = resource_text(x.bytes@);
    let ty = resource_text(y.bytes@);
    if tx == ty {
        lemma_resource_text_injective(x, y);
    }
    lemma_hex_lower_digits(x.bytes@);
    lemma_hex_lower_digits(y.bytes@);
    lemma_text_le_strict_total(tx, ty);
}

} // verus!
