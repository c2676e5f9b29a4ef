//! Byte order: the bytes of a value as the machine lays them out, and
//! conversion between byte orders.
use vstd::prelude::*;

verus! {

/// The `n` low bytes of `v`, least significant first.
pub open spec fn le_bytes(v: nat, n: nat) -> Seq<u8>
    decreases n,
{
    if n == 0 {
        Seq::empty()
    } else {
        seq![(v % 256) as u8].add(le_bytes(v / 256, (n - 1) as nat))
    }
}

/// The byte order of a machine.
#[derive(Clone, Copy, Debug, PartialEq, Eq, Structural)]
pub enum Endian {
    /// Most significant byte first.
    Big,
    /// Least significant byte first.
    Little,
    /// Any other order.
    Middle,
}

/// `binary`, reversed when going from `native` order to `target` order
/// swaps the bytes (from little to big endian or back); else unchanged.
pub open spec fn reordered(binary: Seq<u8>, native: Endian, target: Endian) -> Seq<u8> {
    if (native == Endian::Little && target == Endian::Big) || (native == Endian::Big && target
        == Endian::Little) {
        binary.reverse()
    } else {
        binary
    }
}

/// Relies on `u32::to_ne_bytes`: the bytes of the value in the machine's
/// order, which is big or little endian on every target.
#[verifier::external_body]
fn native_bytes_u32(v: u32) -> (r: [u8; 4])
    ensures
        r@ == le_bytes(v as nat, 4) || r@ == le_bytes(v as nat, 4).reverse(),
{
    v.to_ne_bytes()
}

/// The value whose bytes are `0x00, 0x11, 0x22, 0x33` from the most
/// significant down; its first byte in memory tells the machine's order.
pub const ORDER_PROBE: u32 = 0x0011_2233;

impl Endian {
    /// The byte order whose first byte of `ORDER_PROBE` in memory is
    /// `first`.
    pub fn from_probe(first: u8) -> (r: Endian)
        ensures
            first == 0x00 ==> r == Endian::Big,
            first == 0x33 ==> r == Endian::Little,
            first != 0x00 && first != 0x33 ==> r == Endian::Middle,
    {
        if first == 0x00 {
            Endian::Big
        } else if first == 0x33 {
            Endian::Little
        } else {
            Endian::Middle
        }
    }

    /// The byte order of this machine.
    pub fn of() -> (r: Endian)
        ensures
            r == Endian::Big || r == Endian::Little,
    {
        let b = native_bytes_u32(ORDER_PROBE);
        proof {
            reveal_with_fuel(le_bytes, 5);
            let s = le_bytes(ORDER_PROBE as nat, 4);
            assert(s =~= seq![0x33u8, 0x22u8, 0x11u8, 0x00u8]);
            assert(s.reverse()[0] == s[3]);
        }
        Endian::from_probe(b[0])
    }
}

/// Reverses the bytes: big endian to little endian and back.
pub fn change_endian(binary: &Vec<u8>) -> (r: Vec<u8>)
    ensures
        r@ == binary@.reverse(),
{
    let mut vec: Vec<u8> = Vec::with_capacity(binary.len());
    let mut i: usize = binary.len();
    while i > 0
        invariant
            i <= binary@.len(),
            vec@ == binary@.subrange(i as int, binary@.len() as int).reverse(),
        decreases i,
    {
        i = i - 1;
        vec.push(binary[i]);
        assert(vec@ =~= binary@.subrange(i as int, binary@.len() as int).reverse());
    }
    assert(binary@.subrange(0, binary@.len() as int) =~= binary@);
    vec
}

/// `binary`, laid out by a machine of order `native`, in `target` order.
pub fn to_byte_order(binary: &Vec<u8>, native: Endian, target: Endian) -> (r: Vec<u8>)
    ensures
        r@ == reordered(binary@, native, target),
{
    if (native == Endian::Little && target == Endian::Big) || (native == Endian::Big && target
        == Endian::Little) {
        change_endian(binary)
    } else {
        binary.clone()
    }
}

/// `binary`, laid out by this machine, in big-endian order.
pub fn change_big_endian(binary: &Vec<u8>) -> (r: Vec<u8>)
    ensures
        exists|e: Endian| e != Endian::Middle && r@ == reordered(binary@, e, Endian::Big),
{
    let e = Endian::of();
    to_byte_order(binary, e, Endian::Big)
}

/// `binary`, laid out by this machine, in little-endian order.
pub fn change_little_endian(binary: &Vec<u8>) -> (r: Vec<u8>)
    ensures
        exists|e: Endian| e != Endian::Middle && r@ == reordered(binary@, e, Endian::Little),
{
    let e = Endian::of();
    to_byte_order(binary, e, Endian::Little)
}

/// The `n` low bytes of `v`, least significant first.
fn le_bytes_of(v: u128, n: usize) -> (r: Vec<u8>)
    requires
        n <= 16,
    ensures
        r@ == le_bytes(v as nat, n as nat),
{
    let mut out: Vec<u8> = Vec::with_capacity(n);
    let mut x: u128 = v;
    let mut i: usize = 0;
    while i < n
        invariant
            i <= n,
            out@.add(le_bytes(x as nat, (n - i) as nat)) == le_bytes(v as nat, n as nat),
        decreases n - i,
    {
        let b = (x % 256) as u8;
        let ghost rest = le_bytes((x / 256) as nat, (n - i - 1) as nat);
        assert(le_bytes(x as nat, (n - i) as nat) == seq![b].add(rest));
        assert(out@.push(b).add(rest) =~= out@.add(seq![b].add(rest)));
        out.push(b);
        x = x / 256;
        i = i + 1;
    }
    assert(out@.add(le_bytes(x as nat, 0)) =~= out@);
    out
}

/// The bytes of a value as this machine lays it out in memory.
pub open spec fn is_native_layout(r: Seq<u8>, bits: nat, width: nat) -> bool {
    r == le_bytes(bits, width) || r == le_bytes(bits, width).reverse()
}

/// The `n` low bytes of `v` in this machine's order.
fn native_bytes(v: u128, n: usize) -> (r: Vec<u8>)
    requires
        n <= 16,
    ensures
        is_native_layout(r@, v as nat, n as nat),
{
    let le = le_bytes_of(v, n);
    match Endian::of() {
        Endian::Big => change_endian(&le),
        _ => le,
    }
}

/// The bytes of a value as the machine lays it out in memory.
pub trait ToBinary {
    /// The value's bits, read as an unsigned number.
    spec fn bits(&self) -> nat;

    /// How many bytes the value takes.
    spec fn width() -> nat;

    fn to_binary(&self) -> (r: Vec<u8>)
        ensures
            is_native_layout(r@, self.bits(), Self::width()),
    ;
}

/// The bytes of `number` as the machine lays it out in memory.
pub fn binary_of<T: ToBinary>(number: T) -> (r: Vec<u8>)
    ensures
        is_native_layout(r@, number.bits(), T::width()),
{
    number.to_binary()
}

impl ToBinary for u8 {
    open spec fn bits(&self) -> nat {
        *self as nat
    }

    open spec fn width() -> nat {
        1
    }

    fn to_binary(&self) -> (r: Vec<u8>) {
        native_bytes(*self as u128, 1)
    }
}

impl ToBinary for i8 {
    open spec fn bits(&self) -> nat {
        (*self as u8) as nat
    }

    open spec fn width() -> nat {
        1
    }

    fn to_binary(&self) -> (r: Vec<u8>) {
        native_bytes((*self as u8) as u128, 1)
    }
}

impl ToBinary for u16 {
    open spec fn bits(&self) -> nat {
        *self as nat
    }

    open spec fn width() -> nat {
        2
    }

    fn to_binary(&self) -> (r: Vec<u8>) {
        native_bytes(*self as u128, 2)
    }
}

impl ToBinary for i16 {
    open spec fn bits(&self) -> nat {
        (*self as u16) as nat
    }

    open spec fn width() -> nat {
        2
    }

    fn to_binary(&self) -> (r: Vec<u8>) {
        native_bytes((*self as u16) as u128, 2)
    }
}

impl ToBinary for u32 {
    open spec fn bits(&self) -> nat {
        *self as nat
    }

    open spec fn width() -> nat {
        4
    }

    fn to_binary(&self) -> (r: Vec<u8>) {
        native_bytes(*self as u128, 4)
    }
}

impl ToBinary for i32 {
    open spec fn bits(&self) -> nat {
        (*self as u32) as nat
    }

    open spec fn width() -> nat {
        4
    }

    fn to_binary(&self) -> (r: Vec<u8>) {
        native_bytes((*self as u32) as u128, 4)
    }
}

impl ToBinary for u64 {
    open spec fn bits(&self) -> nat {
        *self as nat
    }

    open spec fn width() -> nat {
        8
    }

    fn to_binary(&self) -> (r: Vec<u8>) {
        native_bytes(*self as u128, 8)
    }
}

impl ToBinary for i64 {
    open spec fn bits(&self) -> nat {
        (*self as u64) as nat
    }

    open spec fn width() -> nat {
        8
    }

    fn to_binary(&self) -> (r: Vec<u8>) {
        native_bytes((*self as u64) as u128, 8)
    }
}

impl ToBinary for u128 {
    open spec fn bits(&self) -> nat {
        *self as nat
    }

    open spec fn width() -> nat {
        16
    }

    fn to_binary(&self) -> (r: Vec<u8>) {
        native_bytes(*self, 16)
    }
}

impl ToBinary for i128 {
    open spec fn bits(&self) -> nat {
        (*self as u128) as nat
    }

    open spec fn width() -> nat {
        16
    }

    fn to_binary(&self) -> (r: Vec<u8>) {
        native_bytes(*self as u128, 16)
    }
}

impl ToBinary for char {
    open spec fn bits(&self) -> nat {
        (*self as u32) as nat
    }

    open spec fn width() -> nat {
        4
    }

    fn to_binary(&self) -> (r: Vec<u8>) {
        native_bytes((*self as u32) as u128, 4)
    }
}

impl ToBinary for bool {
    open spec fn bits(&self) -> nat {
        if *self {
            1
        } else {
            0
        }
    }

    open spec fn width() -> nat {
        1
    }

    fn to_binary(&self) -> (r: Vec<u8>) {
        native_bytes(if *self { 1 } else { 0 }, 1)
    }
}

} // verus!
