//! The trap-frame contract: the portable kernel core touches only `mr0..mr3`, the
//! message tag and the syscall number, never a raw register or offset.

use vstd::prelude::*;

verus! {

/// Number of fast-path message registers in the syscall ABI.
pub const MR_COUNT: usize = 4;

/// Bit 0 of [`MessageTag::flags`] is the error flag on return.
pub const FLAG_ERROR: u16 = 1;

/// Words in a frame's architecture-owned raw save area.
pub const RAW_WORDS: usize = 32;

/// The ABI message tag `{ label: u32, length: u12, extra_caps: u4, flags: u16 }`,
/// packed into one 64-bit machine word.
#[derive(Clone, Copy, Debug, PartialEq, Eq, Structural)]
pub struct MessageTag {
    pub label: u32,
    pub length: u16,
    pub extra_caps: u8,
    pub flags: u16,
}

/// The packed word of a tag: label in bits 32..64, the low 12 bits of `length` in
/// bits 20..32, the low 4 bits of `extra_caps` in bits 16..20, flags in bits 0..16.
pub open spec fn tag_word(t: MessageTag) -> int {
    t.label as int * 0x1_0000_0000
        + (t.length as int % 0x1000) * 0x10_0000
        + (t.extra_caps as int % 0x10) * 0x1_0000
        + t.flags as int
}

/// The tag that a packed word holds: each field read from its bit range.
pub open spec fn tag_of_word(raw: int) -> MessageTag {
    MessageTag {
        label: (raw / 0x1_0000_0000) as u32,
        length: ((raw / 0x10_0000) % 0x1000) as u16,
        extra_caps: ((raw / 0x1_0000) % 0x10) as u8,
        flags: (raw % 0x1_0000) as u16,
    }
}

/// A tag with `length` and `extra_caps` cut to the widths the packed word holds.
pub open spec fn truncated(t: MessageTag) -> MessageTag {
    MessageTag {
        label: t.label,
        length: (t.length % 0x1000) as u16,
        extra_caps: (t.extra_caps % 0x10) as u8,
        flags: t.flags,
    }
}

proof fn lemma_unpack_bits(r: u64)
    by (bit_vector)
    ensures
        r >> 32u64 == r / 0x1_0000_0000,
        (r >> 20u64) & 0xFFFu64 == (r / 0x10_0000) % 0x1000,
        (r >> 16u64) & 0xFu64 == (r / 0x1_0000) % 0x10,
        r & 0xFFFFu64 == r % 0x1_0000,
{
}

proof fn lemma_pack_bits(l: u64, len: u64, ec: u64, f: u64)
    by (bit_vector)
    requires
        l < 0x1_0000_0000,
        len < 0x1_0000,
        ec < 0x100,
        f < 0x1_0000,
    ensures
        (l << 32u64) | ((len & 0xFFFu64) << 20u64) | ((ec & 0xFu64) << 16u64) | (f & 0xFFFFu64)
            == l * 0x1_0000_0000 + (len % 0x1000) * 0x10_0000 + (ec % 0x10) * 0x1_0000 + f,
{
}

proof fn lemma_low_bit(f: u16)
    by (bit_vector)
    ensures
        (f & 1u16 != 0) == (f % 2 == 1),
{
}

impl MessageTag {
    /// Unpacks a raw tag word.
    pub fn from_raw(raw: usize) -> (t: MessageTag)
        ensures
            t == tag_of_word(raw as int),
            t.label as int == raw as int / 0x1_0000_0000,
            t.length as int == (raw as int / 0x10_0000) % 0x1000,
            t.extra_caps as int == (raw as int / 0x1_0000) % 0x10,
            t.flags as int == raw as int % 0x1_0000,
            t.length < 0x1000,
            t.extra_caps < 0x10,
    {
        let r = raw as u64;
        proof {
            lemma_unpack_bits(r);
        }
        let label = (r >> 32u64) as u32;
        let length = ((r >> 20u64) & 0xFFFu64) as u16;
        let extra_caps = ((r >> 16u64) & 0xFu64) as u8;
        let flags = (r & 0xFFFFu64) as u16;
        MessageTag { label, length, extra_caps, flags }
    }

    /// Packs the tag into its raw word; `length` and `extra_caps` are cut to their
    /// 12- and 4-bit widths.
    pub fn into_raw(self) -> (raw: usize)
        ensures
            raw == tag_word(self) as usize,
            usize::BITS == 64 ==> raw as int / 0x1_0000_0000 == self.label as int,
            usize::BITS == 64 ==> (raw as int / 0x10_0000) % 0x1000 == self.length as int % 0x1000,
            usize::BITS == 64 ==> (raw as int / 0x1_0000) % 0x10 == self.extra_caps as int % 0x10,
            usize::BITS == 64 ==> raw as int % 0x1_0000 == self.flags as int,
    {
        proof {
            lemma_pack_bits(self.label as u64, self.length as u64, self.extra_caps as u64, self.flags as u64);
            lemma_packed_word_fields(self);
        }
        let w: u64 = ((self.label as u64) << 32u64) | (((self.length as u64) & 0xFFFu64) << 20u64)
            | (((self.extra_caps as u64) & 0xFu64) << 16u64) | ((self.flags as u64) & 0xFFFFu64);
        proof {
            if usize::BITS == 64 {
                assert(w as usize as int == w as int);
            }
        }
        w as usize
    }

    /// Whether the error flag, bit 0 of `flags`, is set.
    pub fn is_error(&self) -> (r: bool)
        ensures
            r == (self.flags % 2 == 1),
    {
        proof {
            lemma_low_bit(self.flags);
        }
        self.flags & FLAG_ERROR != 0
    }
}

proof fn lemma_split_word(r: u64)
    by (bit_vector)
    ensures
        (r / 0x1_0000_0000) * 0x1_0000_0000 + ((r / 0x10_0000) % 0x1000) * 0x10_0000
            + ((r / 0x1_0000) % 0x10) * 0x1_0000 + r % 0x1_0000 == r,
{
}

proof fn lemma_join_fields(l: u64, len: u64, ec: u64, f: u64)
    by (bit_vector)
    requires
        l < 0x1_0000_0000,
        len < 0x1000,
        ec < 0x10,
        f < 0x1_0000,
    ensures
        (l * 0x1_0000_0000 + len * 0x10_0000 + ec * 0x1_0000 + f) / 0x1_0000_0000 == l,
        ((l * 0x1_0000_0000 + len * 0x10_0000 + ec * 0x1_0000 + f) / 0x10_0000) % 0x1000 == len,
        ((l * 0x1_0000_0000 + len * 0x10_0000 + ec * 0x1_0000 + f) / 0x1_0000) % 0x10 == ec,
        (l * 0x1_0000_0000 + len * 0x10_0000 + ec * 0x1_0000 + f) % 0x1_0000 == f,
{
}

/// The packed word holds each field as a plain number in its bit range: the label
/// in bits 32..64, the low 12 bits of `length` in bits 20..32, the low 4 bits of
/// `extra_caps` in bits 16..20 and the flags in bits 0..16; the word fits in 64 bits.
pub proof fn lemma_packed_word_fields(t: MessageTag)
    ensures
        0 <= tag_word(t) < 0x1_0000_0000_0000_0000,
        tag_word(t) / 0x1_0000_0000 == t.label as int,
        (tag_word(t) / 0x10_0000) % 0x1000 == t.length as int % 0x1000,
        (tag_word(t) / 0x1_0000) % 0x10 == t.extra_caps as int % 0x10,
        tag_word(t) % 0x1_0000 == t.flags as int,
{
    let len = (t.length % 0x1000) as u64;
    let ec = (t.extra_caps % 0x10) as u64;
    lemma_join_fields(t.label as u64, len, ec, t.flags as u64);
}

/// Unpacking reads each field as a plain number from its bit range.
pub proof fn lemma_unpacked_fields(raw: int)
    requires
        0 <= raw < 0x1_0000_0000_0000_0000,
    ensures
        tag_of_word(raw).label as int == raw / 0x1_0000_0000,
        tag_of_word(raw).length as int == (raw / 0x10_0000) % 0x1000,
        tag_of_word(raw).extra_caps as int == (raw / 0x1_0000) % 0x10,
        tag_of_word(raw).flags as int == raw % 0x1_0000,
{
}

/// Unpacking a packed tag gives the tag back, with `length` and `extra_caps` cut to
/// their field widths (on a 64-bit machine word).
pub proof fn lemma_tag_roundtrip(t: MessageTag)
    requires
        usize::BITS == 64,
    ensures
        tag_of_word(tag_word(t) as usize as int) == truncated(t),
        (tag_of_word(tag_word(t) as usize as int) == t) <==> (t.length < 0x1000 && t.extra_caps < 0x10),
{
    let len = (t.length % 0x1000) as u64;
    let ec = (t.extra_caps % 0x10) as u64;
    lemma_join_fields(t.label as u64, len, ec, t.flags as u64);
    assert(0 <= tag_word(t) <= usize::MAX);
    assert(tag_word(t) as usize as int == tag_word(t));
}

/// Packing the tag that a raw word holds gives the word back.
pub proof fn lemma_raw_roundtrip(raw: usize)
    ensures
        tag_word(tag_of_word(raw as int)) as usize == raw,
{
    lemma_split_word(raw as u64);
    assert(tag_word(tag_of_word(raw as int)) == raw as int);
}

/// The register state handed to the portable kernel core on syscall/trap entry, and
/// taken back, possibly modified, on return.
///
/// Beyond the accessors, the layout of `raw` belongs to each architecture module.
pub struct TrapFrame {
    syscall_num: usize,
    tag: usize,
    mrs: [usize; MR_COUNT],
    raw: [usize; RAW_WORDS],
}

impl TrapFrame {
    /// The syscall-number field.
    pub closed spec fn syscall_view(&self) -> usize {
        self.syscall_num
    }

    /// The raw word the tag field holds.
    pub closed spec fn tag_view(&self) -> usize {
        self.tag
    }

    /// The message registers `mr0..mr3`.
    pub closed spec fn mrs_view(&self) -> Seq<usize> {
        self.mrs@
    }

    /// The architecture-owned save area.
    pub closed spec fn raw_view(&self) -> Seq<usize> {
        self.raw@
    }

    /// Every frame has `MR_COUNT` message registers and `RAW_WORDS` raw words.
    pub broadcast proof fn lemma_frame_shape(&self)
        ensures
            #[trigger] self.mrs_view().len() == MR_COUNT,
            self.raw_view().len() == RAW_WORDS,
    {
    }

    /// A zeroed frame, for an architecture's trap entry to build a fresh thread's
    /// initial state or a scratch save area.
    pub fn zeroed() -> (f: Self)
        ensures
            f.syscall_view() == 0,
            f.tag_view() == 0,
            f.mrs_view() == Seq::new(MR_COUNT as nat, |i: int| 0usize),
            f.raw_view() == Seq::new(RAW_WORDS as nat, |i: int| 0usize),
    {
        let f = TrapFrame { syscall_num: 0, tag: 0, mrs: [0usize; MR_COUNT], raw: [0usize; RAW_WORDS] };
        assert(f.mrs@ =~= Seq::new(MR_COUNT as nat, |i: int| 0usize));
        assert(f.raw@ =~= Seq::new(RAW_WORDS as nat, |i: int| 0usize));
        f
    }

    pub fn syscall_number(&self) -> (n: usize)
        ensures
            n == self.syscall_view(),
    {
        self.syscall_num
    }

    pub fn set_syscall_number(&mut self, value: usize)
        ensures
            final(self).syscall_view() == value,
            final(self).tag_view() == old(self).tag_view(),
            final(self).mrs_view() == old(self).mrs_view(),
            final(self).raw_view() == old(self).raw_view(),
    {
        self.syscall_num = value;
    }

    pub fn tag(&self) -> (t: MessageTag)
        ensures
            t == tag_of_word(self.tag_view() as int),
    {
        MessageTag::from_raw(self.tag)
    }

    pub fn set_tag(&mut self, tag: MessageTag)
        ensures
            final(self).tag_view() == tag_word(tag) as usize,
            final(self).syscall_view() == old(self).syscall_view(),
            final(self).mrs_view() == old(self).mrs_view(),
            final(self).raw_view() == old(self).raw_view(),
    {
        self.tag = tag.into_raw();
    }

    /// Reads fast-path message register `index` (`0..MR_COUNT`).
    pub fn mr(&self, index: usize) -> (v: usize)
        requires
            index < MR_COUNT,
        ensures
            v == self.mrs_view()[index as int],
    {
        self.mrs[index]
    }

    pub fn set_mr(&mut self, index: usize, value: usize)
        requires
            index < MR_COUNT,
        ensures
            final(self).mrs_view() == old(self).mrs_view().update(index as int, value),
            final(self).syscall_view() == old(self).syscall_view(),
            final(self).tag_view() == old(self).tag_view(),
            final(self).raw_view() == old(self).raw_view(),
    {
        self.mrs[index] = value;
    }

    /// Raw architecture-owned save-area word `index` (`0..RAW_WORDS`).
    pub fn raw_word(&self, index: usize) -> (v: usize)
        requires
            index < RAW_WORDS,
        ensures
            v == self.raw_view()[index as int],
    {
        self.raw[index]
    }

    pub fn set_raw_word(&mut self, index: usize, value: usize)
        requires
            index < RAW_WORDS,
        ensures
            final(self).raw_view() == old(self).raw_view().update(index as int, value),
            final(self).syscall_view() == old(self).syscall_view(),
            final(self).tag_view() == old(self).tag_view(),
            final(self).mrs_view() == old(self).mrs_view(),
    {
        self.raw[index] = value;
    }
}

} // verus!
