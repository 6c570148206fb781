//! The permissions dialog's bitmask arithmetic: nine permission checkboxes
//! merged into one value and split back, plus its octal rendering.

use crate::types::spec_digit_char;
use vstd::prelude::*;

verus! {

/// The nine permission checkboxes: read, write and execute for all
/// (others), group and owner.
#[derive(Clone, Copy, PartialEq, Eq, Structural)]
pub struct PermBits {
    pub a_x: bool,
    pub a_w: bool,
    pub a_r: bool,
    pub g_x: bool,
    pub g_w: bool,
    pub g_r: bool,
    pub o_x: bool,
    pub o_w: bool,
    pub o_r: bool,
}

/// The merged value of the nine checkboxes.
pub open spec fn spec_merged(b: PermBits) -> int {
    (if b.a_x { 1int } else { 0 }) + (if b.a_w { 2int } else { 0 }) + (if b.a_r { 4int } else { 0 })
        + (if b.g_x { 8int } else { 0 }) + (if b.g_w { 16int } else { 0 }) + (if b.g_r {
        32int
    } else {
        0
    }) + (if b.o_x { 64int } else { 0 }) + (if b.o_w { 128int } else { 0 }) + (if b.o_r {
        256int
    } else {
        0
    })
}

/// Merges the nine checkbox bits back into one value.
pub fn get_merged_bitmask(b: &PermBits) -> (r: i32)
    ensures
        r == spec_merged(*b),
        0 <= r < 512,
{
    let a_x: i32 = if b.a_x { 1 } else { 0 };
    let a_w: i32 = if b.a_w { 2 } else { 0 };
    let a_r: i32 = if b.a_r { 4 } else { 0 };
    let g_x: i32 = if b.g_x { 8 } else { 0 };
    let g_w: i32 = if b.g_w { 16 } else { 0 };
    let g_r: i32 = if b.g_r { 32 } else { 0 };
    let o_x: i32 = if b.o_x { 64 } else { 0 };
    let o_w: i32 = if b.o_w { 128 } else { 0 };
    let o_r: i32 = if b.o_r { 256 } else { 0 };
    a_x + a_w + a_r + g_x + g_w + g_r + o_x + o_w + o_r
}

/// Splits one permissions value into the nine checkbox bits.
pub fn set_split_bitmask(i: i32) -> (r: PermBits)
    ensures
        r.a_x == ((i & 1) > 0),
        r.a_w == ((i & 2) > 0),
        r.a_r == ((i & 4) > 0),
        r.g_x == ((i & 8) > 0),
        r.g_w == ((i & 16) > 0),
        r.g_r == ((i & 32) > 0),
        r.o_x == ((i & 64) > 0),
        r.o_w == ((i & 128) > 0),
        r.o_r == ((i & 256) > 0),
{
    PermBits {
        a_x: (i & 1) > 0,
        a_w: (i & 2) > 0,
        a_r: (i & 4) > 0,
        g_x: (i & 8) > 0,
        g_w: (i & 16) > 0,
        g_r: (i & 32) > 0,
        o_x: (i & 64) > 0,
        o_w: (i & 128) > 0,
        o_r: (i & 256) > 0,
    }
}

/// Splitting a permissions value and merging the bits again gives back its
/// lowest nine bits.
pub proof fn lemma_bitmask_round_trip(i: i32)
    requires
        0 <= i < 512,
    ensures
        spec_merged(
            PermBits {
                a_x: (i & 1) > 0,
                a_w: (i & 2) > 0,
                a_r: (i & 4) > 0,
                g_x: (i & 8) > 0,
                g_w: (i & 16) > 0,
                g_r: (i & 32) > 0,
                o_x: (i & 64) > 0,
                o_w: (i & 128) > 0,
                o_r: (i & 256) > 0,
            },
        ) == i,
{
    assert((if (i & 1) > 0 { 1i32 } else { 0 }) + (if (i & 2) > 0 { 2i32 } else { 0 }) + (if (i
        & 4) > 0 {
        4i32
    } else {
        0
    }) + (if (i & 8) > 0 { 8i32 } else { 0 }) + (if (i & 16) > 0 { 16i32 } else { 0 }) + (if (i
        & 32) > 0 {
        32i32
    } else {
        0
    }) + (if (i & 64) > 0 { 64i32 } else { 0 }) + (if (i & 128) > 0 { 128i32 } else { 0 }) + (
    if (i & 256) > 0 {
        256i32
    } else {
        0
    }) == i) by (bit_vector)
        requires
            0 <= i < 512,
    ;
}

/// The octal digits of a number, most significant first.
pub open spec fn spec_octal(n: nat) -> Seq<char>
    decreases n,
{
    if n < 8 {
        seq![spec_digit_char(n)]
    } else {
        spec_octal(n / 8) + seq![spec_digit_char(n % 8)]
    }
}

fn u64_to_octal(n: u64) -> (s: String)
    ensures
        s@ == spec_octal(n as nat),
    decreases n,
{
    if n < 8 {
        crate::types::digit_str(n).to_owned()
    } else {
        let mut s = u64_to_octal(n / 8);
        s.append(crate::types::digit_str(n % 8));
        proof {
            assert(s@ =~= spec_octal(n as nat));
        }
        s
    }
}

/// Renders the merged permissions value in octal, the form the dialog's
/// text field shows.
pub fn recalculate_bitmask(b: &PermBits) -> (r: String)
    ensures
        r@ == spec_octal(spec_merged(*b) as nat),
{
    let merged = get_merged_bitmask(b);
    u64_to_octal(merged as u64)
}

} // verus!
