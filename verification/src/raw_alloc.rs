//! Placement rules of an allocator that sits on a raw allocator with a fixed alignment.
//!
//! A block whose alignment the raw allocator does not guarantee is placed inside a larger raw
//! block, with the raw block's address stored in the header just in front of it.

use vstd::prelude::*;

verus! {

/// Size and alignment of a block of memory.
#[derive(Clone, Copy, Debug, PartialEq, Eq, Structural)]
pub struct Layout {
    pub size: usize,
    pub align: usize,
}

/// The alignment that the raw allocator provides on its own.
pub open spec fn raw_align() -> nat {
    if usize::BITS >= 64 {
        16
    } else {
        8
    }
}

/// The size of the header in front of an over-aligned block: one address.
pub open spec fn header() -> nat {
    (usize::BITS / 8) as nat
}

/// Whether the raw allocator satisfies a layout by itself. Blocks smaller than their alignment
/// are left out, because an allocator may align small blocks less strictly.
pub open spec fn is_direct(layout: Layout) -> bool {
    layout.align <= raw_align() && layout.align <= layout.size
}

/// How much raw memory an over-aligned block asks for.
pub open spec fn over_aligned_size(layout: Layout) -> nat {
    layout.size as nat + layout.align as nat + header()
}

/// The first address at or after `addr` that `align` divides.
pub open spec fn aligned_up(addr: nat, align: nat) -> nat {
    if addr % align == 0 {
        addr
    } else {
        (addr + align - addr % align) as nat
    }
}

/// Whether the raw allocator satisfies `layout` directly.
pub fn direct(layout: Layout) -> (r: bool)
    ensures
        r == is_direct(layout),
{
    let raw: usize = if usize::BITS >= 64 { 16 } else { 8 };
    layout.align <= raw && layout.align <= layout.size
}

/// The size of the header in front of an over-aligned block.
pub fn header_size() -> (r: usize)
    ensures
        r == header(),
        r == 4 || r == 8,
{
    (usize::BITS / 8) as usize
}

/// How much raw memory to ask for to place an over-aligned block, if that can be expressed.
pub fn over_aligned_total(layout: Layout) -> (r: Option<usize>)
    ensures
        r is Some <==> over_aligned_size(layout) <= usize::MAX,
        r is Some ==> r->0 == over_aligned_size(layout),
{
    match layout.size.checked_add(layout.align) {
        Some(total) => total.checked_add(header_size()),
        None => None,
    }
}

/// Where the block lies inside the raw block at address `raw`.
pub fn over_aligned_block(raw: usize, layout: Layout) -> (r: usize)
    requires
        layout.align > 0,
        raw + over_aligned_size(layout) <= usize::MAX,
    ensures
        r == aligned_up((raw + header()) as nat, layout.align as nat),
{
    let addr: usize = raw + header_size();
    let rest: usize = addr % layout.align;
    if rest == 0 {
        addr
    } else {
        addr + (layout.align - rest)
    }
}

/// Whether a block is resized by the raw allocator itself rather than moved: both the old and
/// the new layout must be direct.
pub fn resizes_in_place(layout: Layout, new_size: usize) -> (r: bool)
    ensures
        r == (is_direct(layout) && is_direct(Layout { size: new_size, align: layout.align })),
        r ==> layout.align <= raw_align() && layout.align <= layout.size && layout.align <= new_size,
        !r && layout.align <= raw_align() ==> layout.size < layout.align || new_size < layout.align,
{
    direct(layout) && direct(Layout { size: new_size, align: layout.align })
}

/// How many bytes move along when a block is moved to a block of another size.
pub fn moved_bytes(layout: Layout, new_size: usize) -> (r: usize)
    ensures
        r == if layout.size <= new_size {
            layout.size
        } else {
            new_size
        },
        r <= layout.size && r <= new_size,
        r == layout.size || r == new_size,
{
    if layout.size <= new_size {
        layout.size
    } else {
        new_size
    }
}

/// The raw allocator's alignment is enough for a direct block: an address that it divides is
/// divided by the block's alignment, which is a power of two. No block of more than that, and none
/// smaller than its alignment, is direct.
pub proof fn lemma_direct_blocks_are_aligned(addr: nat, layout: Layout)
    requires
        addr % raw_align() == 0,
        layout.align == 1 || layout.align == 2 || layout.align == 4 || layout.align == 8 || layout.align
            == 16 || layout.align > 16,
    ensures
        is_direct(layout) ==> addr % (layout.align as nat) == 0,
        is_direct(layout) <==> layout.align <= layout.size && layout.align <= if usize::BITS >= 64 {
            16int
        } else {
            8
        },
{
    assert(addr % 16 == 0 ==> addr % 8 == 0);
    assert(addr % 8 == 0 ==> addr % 4 == 0 && addr % 2 == 0 && addr % 1 == 0);
    let align = layout.align as nat;
    if align == 1 {
        assert(addr % 1 == addr % align);
    } else if align == 2 {
        assert(addr % 2 == addr % align);
    } else if align == 4 {
        assert(addr % 4 == addr % align);
    } else if align == 8 {
        assert(addr % 8 == addr % align);
    } else if align == 16 {
        assert(addr % 16 == addr % align);
    }
}

/// An over-aligned block has its alignment, leaves room for the header in front of it, and
/// ends inside the raw block.
pub proof fn lemma_over_aligned_block_fits(raw: nat, layout: Layout)
    requires
        layout.align > 0,
    ensures
        ({
            let block = aligned_up(raw + header(), layout.align as nat);
            &&& block % (layout.align as nat) == 0
            &&& raw + header() <= block < raw + header() + layout.align
            &&& block + layout.size <= raw + over_aligned_size(layout)
        }),
{
    let addr = raw + header();
    let align = layout.align as nat;
    vstd::arithmetic::div_mod::lemma_mod_bound(addr as int, align as int);
    if addr % align != 0 {
        let q = addr as int / align as int;
        vstd::arithmetic::div_mod::lemma_fundamental_div_mod(addr as int, align as int);
        assert(addr + align - addr % align == align * (q + 1)) by (nonlinear_arith)
            requires
                addr as int == align as int * q + (addr % align) as int,
        ;
        vstd::arithmetic::div_mod::lemma_mod_multiples_basic(q + 1, align as int);
        assert(align * (q + 1) == (q + 1) * align) by (nonlinear_arith);
    }
}

} // verus!
