use vstd::prelude::*;

verus! {

/// A type whose values can be kept in a `PolyMap`'s byte buffer.
///
/// A value is written as `byte_len` bytes and read back from them. The tag
/// identifies the type: implementors give each stored type a tag of its
/// own, and the map compares tags to check that a key is read back as the
/// type it was written as.
pub trait Storable: Sized {
    spec fn tag_spec() -> u64;

    spec fn byte_len_spec() -> nat;

    spec fn alignment_spec() -> nat;

    spec fn needs_cleanup_spec() -> bool;

    spec fn encode_spec(v: Self) -> Seq<u8>;

    spec fn decode_spec(b: Seq<u8>) -> Self;

    /// The type's identity token.
    fn type_tag() -> (r: u64)
        ensures
            r == Self::tag_spec(),
    ;

    /// Number of bytes in an encoded value (zero for a type with one value).
    fn byte_len() -> (r: usize)
        ensures
            r == Self::byte_len_spec(),
    ;

    /// Alignment, in bytes, of the region that holds a value.
    fn alignment() -> (r: usize)
        ensures
            r == Self::alignment_spec(),
            r >= 1,
    ;

    /// Whether a value left in the map at teardown must be handed back for
    /// cleanup.
    fn needs_cleanup() -> (r: bool)
        ensures
            r == Self::needs_cleanup_spec(),
    ;

    fn encode(&self) -> (r: Vec<u8>)
        ensures
            r@ == Self::encode_spec(*self),
    ;

    /// Reads a value from `b[at..at + byte_len]`.
    fn decode(b: &[u8], at: usize) -> (r: Self)
        requires
            at + Self::byte_len_spec() <= b@.len(),
        ensures
            r == Self::decode_spec(b@.subrange(at as int, at + Self::byte_len_spec())),
    ;

    /// Decoding an encoding gives the value back.
    proof fn lemma_round_trip(v: Self)
        ensures
            Self::encode_spec(v).len() == Self::byte_len_spec(),
            Self::decode_spec(Self::encode_spec(v)) == v,
    ;
}

pub open spec fn u16_bytes(v: u16) -> Seq<u8> {
    seq![(v & 0xff) as u8, ((v >> 8u16) & 0xff) as u8]
}

pub open spec fn u16_of(b: Seq<u8>) -> u16 {
    (b[0] as u16) | ((b[1] as u16) << 8u16)
}

pub open spec fn u32_bytes(v: u32) -> Seq<u8> {
    seq![
        (v & 0xff) as u8,
        ((v >> 8u32) & 0xff) as u8,
        ((v >> 16u32) & 0xff) as u8,
        ((v >> 24u32) & 0xff) as u8,
    ]
}

pub open spec fn u32_of(b: Seq<u8>) -> u32 {
    (b[0] as u32) | ((b[1] as u32) << 8u32) | ((b[2] as u32) << 16u32) | ((b[3] as u32) << 24u32)
}

pub open spec fn u64_bytes(v: u64) -> Seq<u8> {
    seq![
        (v & 0xff) as u8,
        ((v >> 8u64) & 0xff) as u8,
        ((v >> 16u64) & 0xff) as u8,
        ((v >> 24u64) & 0xff) as u8,
        ((v >> 32u64) & 0xff) as u8,
        ((v >> 40u64) & 0xff) as u8,
        ((v >> 48u64) & 0xff) as u8,
        ((v >> 56u64) & 0xff) as u8,
    ]
}

pub open spec fn u64_of(b: Seq<u8>) -> u64 {
    (b[0] as u64) | ((b[1] as u64) << 8u64) | ((b[2] as u64) << 16u64) | ((b[3] as u64) << 24u64)
        | ((b[4] as u64) << 32u64) | ((b[5] as u64) << 40u64) | ((b[6] as u64) << 48u64) | ((
    b[7] as u64) << 56u64)
}

impl Storable for u8 {
    open spec fn tag_spec() -> u64 {
        1
    }

    open spec fn byte_len_spec() -> nat {
        1
    }

    open spec fn alignment_spec() -> nat {
        1
    }

    open spec fn needs_cleanup_spec() -> bool {
        false
    }

    open spec fn encode_spec(v: u8) -> Seq<u8> {
        seq![v]
    }

    open spec fn decode_spec(b: Seq<u8>) -> u8 {
        b[0]
    }

    fn type_tag() -> (r: u64) {
        1
    }

    fn byte_len() -> (r: usize) {
        1
    }

    fn alignment() -> (r: usize) {
        1
    }

    fn needs_cleanup() -> (r: bool) {
        false
    }

    fn encode(&self) -> (r: Vec<u8>) {
        vec![*self]
    }

    fn decode(b: &[u8], at: usize) -> (r: u8) {
        b[at]
    }

    proof fn lemma_round_trip(v: u8) {
    }
}

impl Storable for u16 {
    open spec fn tag_spec() -> u64 {
        2
    }

    open spec fn byte_len_spec() -> nat {
        2
    }

    open spec fn alignment_spec() -> nat {
        2
    }

    open spec fn needs_cleanup_spec() -> bool {
        false
    }

    open spec fn encode_spec(v: u16) -> Seq<u8> {
        u16_bytes(v)
    }

    open spec fn decode_spec(b: Seq<u8>) -> u16 {
        u16_of(b)
    }

    fn type_tag() -> (r: u64) {
        2
    }

    fn byte_len() -> (r: usize) {
        2
    }

    fn alignment() -> (r: usize) {
        2
    }

    fn needs_cleanup() -> (r: bool) {
        false
    }

    fn encode(&self) -> (r: Vec<u8>) {
        let v = *self;
        vec![(v & 0xff) as u8, ((v >> 8u16) & 0xff) as u8]
    }

    fn decode(b: &[u8], at: usize) -> (r: u16) {
        (b[at] as u16) | ((b[at + 1] as u16) << 8u16)
    }

    proof fn lemma_round_trip(v: u16) {
        let b = u16_bytes(v);
        let (b0, b1) = (b[0], b[1]);
        assert(b0 == (v & 0xff) as u8 && b1 == ((v >> 8u16) & 0xff) as u8);
        assert(b0 == (v & 0xff) as u8 && b1 == ((v >> 8u16) & 0xff) as u8 ==> (b0 as u16) | ((
        b1 as u16) << 8u16) == v) by (bit_vector);
    }
}

impl Storable for u32 {
    open spec fn tag_spec() -> u64 {
        3
    }

    open spec fn byte_len_spec() -> nat {
        4
    }

    open spec fn alignment_spec() -> nat {
        4
    }

    open spec fn needs_cleanup_spec() -> bool {
        false
    }

    open spec fn encode_spec(v: u32) -> Seq<u8> {
        u32_bytes(v)
    }

    open spec fn decode_spec(b: Seq<u8>) -> u32 {
        u32_of(b)
    }

    fn type_tag() -> (r: u64) {
        3
    }

    fn byte_len() -> (r: usize) {
        4
    }

    fn alignment() -> (r: usize) {
        4
    }

    fn needs_cleanup() -> (r: bool) {
        false
    }

    fn encode(&self) -> (r: Vec<u8>) {
        let v = *self;
        vec![
            (v & 0xff) as u8,
            ((v >> 8u32) & 0xff) as u8,
            ((v >> 16u32) & 0xff) as u8,
            ((v >> 24u32) & 0xff) as u8,
        ]
    }

    fn decode(b: &[u8], at: usize) -> (r: u32) {
        (b[at] as u32) | ((b[at + 1] as u32) << 8u32) | ((b[at + 2] as u32) << 16u32) | ((b[at
            + 3] as u32) << 24u32)
    }

    proof fn lemma_round_trip(v: u32) {
        let b = u32_bytes(v);
        let (b0, b1, b2, b3) = (b[0], b[1], b[2], b[3]);
        assert(b0 == (v & 0xff) as u8 && b1 == ((v >> 8u32) & 0xff) as u8 && b2 == ((v >> 16u32)
            & 0xff) as u8 && b3 == ((v >> 24u32) & 0xff) as u8 ==> (b0 as u32) | ((b1 as u32)
            << 8u32) | ((b2 as u32) << 16u32) | ((b3 as u32) << 24u32) == v) by (bit_vector);
    }
}

impl Storable for u64 {
    open spec fn tag_spec() -> u64 {
        4
    }

    open spec fn byte_len_spec() -> nat {
        8
    }

    open spec fn alignment_spec() -> nat {
        8
    }

    open spec fn needs_cleanup_spec() -> bool {
        false
    }

    open spec fn encode_spec(v: u64) -> Seq<u8> {
        u64_bytes(v)
    }

    open spec fn decode_spec(b: Seq<u8>) -> u64 {
        u64_of(b)
    }

    fn type_tag() -> (r: u64) {
        4
    }

    fn byte_len() -> (r: usize) {
        8
    }

    fn alignment() -> (r: usize) {
        8
    }

    fn needs_cleanup() -> (r: bool) {
        false
    }

    fn encode(&self) -> (r: Vec<u8>) {
        let v = *self;
        vec![
            (v & 0xff) as u8,
            ((v >> 8u64) & 0xff) as u8,
            ((v >> 16u64) & 0xff) as u8,
            ((v >> 24u64) & 0xff) as u8,
            ((v >> 32u64) & 0xff) as u8,
            ((v >> 40u64) & 0xff) as u8,
            ((v >> 48u64) & 0xff) as u8,
            ((v >> 56u64) & 0xff) as u8,
        ]
    }

    fn decode(b: &[u8], at: usize) -> (r: u64) {
        (b[at] as u64) | ((b[at + 1] as u64) << 8u64) | ((b[at + 2] as u64) << 16u64) | ((b[at
            + 3] as u64) << 24u64) | ((b[at + 4] as u64) << 32u64) | ((b[at + 5] as u64)
            << 40u64) | ((b[at + 6] as u64) << 48u64) | ((b[at + 7] as u64) << 56u64)
    }

    proof fn lemma_round_trip(v: u64) {
        let b = u64_bytes(v);
        let (b0, b1, b2, b3, b4, b5, b6, b7) = (b[0], b[1], b[2], b[3], b[4], b[5], b[6], b[7]);
        assert(b0 == (v & 0xff) as u8 && b1 == ((v >> 8u64) & 0xff) as u8 && b2 == ((v >> 16u64)
            & 0xff) as u8 && b3 == ((v >> 24u64) & 0xff) as u8 && b4 == ((v >> 32u64) & 0xff) as u8
            && b5 == ((v >> 40u64) & 0xff) as u8 && b6 == ((v >> 48u64) & 0xff) as u8 && b7 == ((v
            >> 56u64) & 0xff) as u8 ==> (b0 as u64) | ((b1 as u64) << 8u64) | ((b2 as u64)
            << 16u64) | ((b3 as u64) << 24u64) | ((b4 as u64) << 32u64) | ((b5 as u64) << 40u64)
            | ((b6 as u64) << 48u64) | ((b7 as u64) << 56u64) == v) by (bit_vector);
    }
}

impl Storable for i32 {
    open spec fn tag_spec() -> u64 {
        5
    }

    open spec fn byte_len_spec() -> nat {
        4
    }

    open spec fn alignment_spec() -> nat {
        4
    }

    open spec fn needs_cleanup_spec() -> bool {
        false
    }

    open spec fn encode_spec(v: i32) -> Seq<u8> {
        u32_bytes(v as u32)
    }

    open spec fn decode_spec(b: Seq<u8>) -> i32 {
        u32_of(b) as i32
    }

    fn type_tag() -> (r: u64) {
        5
    }

    fn byte_len() -> (r: usize) {
        4
    }

    fn alignment() -> (r: usize) {
        4
    }

    fn needs_cleanup() -> (r: bool) {
        false
    }

    fn encode(&self) -> (r: Vec<u8>) {
        (*self as u32).encode()
    }

    fn decode(b: &[u8], at: usize) -> (r: i32) {
        let u = <u32 as Storable>::decode(b, at);
        u as i32
    }

    proof fn lemma_round_trip(v: i32) {
        <u32 as Storable>::lemma_round_trip(v as u32);
        assert(((v as u32) as i32) == v) by (bit_vector);
    }
}

/// A handle to a resource held elsewhere (a file, a connection, an entry of
/// a pool), named by a number. Dropping the handle alone would leak the
/// resource, so its type needs cleanup: a map that still holds handles when
/// it is cleared hands them back.
#[derive(Clone, Copy, Debug, PartialEq, Eq)]
pub struct Handle(pub u64);

impl Storable for Handle {
    open spec fn tag_spec() -> u64 {
        7
    }

    open spec fn byte_len_spec() -> nat {
        8
    }

    open spec fn alignment_spec() -> nat {
        8
    }

    open spec fn needs_cleanup_spec() -> bool {
        true
    }

    open spec fn encode_spec(v: Handle) -> Seq<u8> {
        u64_bytes(v.0)
    }

    open spec fn decode_spec(b: Seq<u8>) -> Handle {
        Handle(u64_of(b))
    }

    fn type_tag() -> (r: u64) {
        7
    }

    fn byte_len() -> (r: usize) {
        8
    }

    fn alignment() -> (r: usize) {
        8
    }

    fn needs_cleanup() -> (r: bool) {
        true
    }

    fn encode(&self) -> (r: Vec<u8>) {
        self.0.encode()
    }

    fn decode(b: &[u8], at: usize) -> (r: Handle) {
        Handle(<u64 as Storable>::decode(b, at))
    }

    proof fn lemma_round_trip(v: Handle) {
        <u64 as Storable>::lemma_round_trip(v.0);
    }
}

impl Storable for () {
    open spec fn tag_spec() -> u64 {
        6
    }

    open spec fn byte_len_spec() -> nat {
        0
    }

    open spec fn alignment_spec() -> nat {
        1
    }

    open spec fn needs_cleanup_spec() -> bool {
        false
    }

    open spec fn encode_spec(v: ()) -> Seq<u8> {
        Seq::empty()
    }

    open spec fn decode_spec(b: Seq<u8>) -> () {
        ()
    }

    fn type_tag() -> (r: u64) {
        6
    }

    fn byte_len() -> (r: usize) {
        0
    }

    fn alignment() -> (r: usize) {
        1
    }

    fn needs_cleanup() -> (r: bool) {
        false
    }

    fn encode(&self) -> (r: Vec<u8>) {
        Vec::new()
    }

    fn decode(b: &[u8], at: usize) -> (r: ()) {
    }

    proof fn lemma_round_trip(v: ()) {
    }
}

} // verus!
