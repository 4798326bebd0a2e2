//! Block download in bounded windows, and the ordering of what came back.

use vstd::prelude::*;
use crate::sorting::{stable_sorted, lemma_stable_insert, lemma_stable_empty};

verus! {

/// Heights asked for in one streaming request.
pub const BATCH_SIZE: u32 = 1000;

/// A compact block as the chain data service sent it, still encoded.
#[derive(Debug, Clone, PartialEq, Eq)]
pub struct CompactBlockData {
    pub height: u32,
    pub data: Vec<u8>,
}

/// One item of a block stream.
#[derive(Debug, Clone, PartialEq, Eq)]
pub enum StreamItem {
    Block(CompactBlockData),
    /// An item that could not be read as a block.
    Malformed,
}

/// The windows `[a, b)` of at most `size` heights that tile `[start, end)`,
/// in ascending order.
pub open spec fn windows_spec(start: u32, end: u32, size: u32) -> Seq<(u32, u32)>
    decreases end - start,
{
    if size == 0 || start >= end {
        Seq::empty()
    } else {
        let stop = if end - start > size {
            (start + size) as u32
        } else {
            end
        };
        seq![(start, stop)] + windows_spec(stop, end, size)
    }
}

/// The windows in which `[start, end)` is downloaded.
pub fn batch_windows(start: u32, end: u32, size: u32) -> (r: Vec<(u32, u32)>)
    requires
        size > 0,
    ensures
        r@ == windows_spec(start, end, size),
{
    let mut r: Vec<(u32, u32)> = Vec::new();
    let mut a = start;
    while a < end
        invariant
            size > 0,
            start <= a,
            a < end ==> r@ + windows_spec(a, end, size) == windows_spec(start, end, size),
            a >= end ==> r@ == windows_spec(start, end, size),
        decreases end - a,
    {
        let stop = if end - a > size {
            a + size
        } else {
            end
        };
        let ghost before = r@;
        r.push((a, stop));
        proof {
            assert(r@ + windows_spec(stop, end, size) =~= before + windows_spec(a, end, size));
            if stop >= end {
                assert(windows_spec(stop, end, size) =~= Seq::<(u32, u32)>::empty());
                assert(r@ =~= r@ + windows_spec(stop, end, size));
            }
        }
        a = stop;
    }
    if start >= end {
        assert(r@ =~= windows_spec(start, end, size));
    }
    r
}

pub open spec fn by_height() -> spec_fn(CompactBlockData) -> u64 {
    |b: CompactBlockData| b.height as u64
}

/// The blocks of a stream, malformed items dropped, in stream order.
pub open spec fn well_formed(items: Seq<StreamItem>) -> Seq<CompactBlockData> {
    items.filter_map(
        |i: StreamItem|
            match i {
                StreamItem::Block(b) => Some(b),
                StreamItem::Malformed => None,
            },
    )
}

/// Number of malformed items in a stream.
pub open spec fn malformed_count(items: Seq<StreamItem>) -> nat {
    (items.len() - well_formed(items).len()) as nat
}

/// What a range's download amounts to: its blocks by ascending height, and
/// how many stream items had to be dropped.
#[derive(Debug, Clone, PartialEq, Eq)]
pub struct BlockBatch {
    pub blocks: Vec<CompactBlockData>,
    pub dropped: usize,
}

proof fn lemma_well_formed_len(items: Seq<StreamItem>)
    ensures
        well_formed(items).len() <= items.len(),
    decreases items.len(),
{
    if items.len() > 0 {
        lemma_well_formed_len(items.drop_last());
    }
}

fn sort_by_height(v: Vec<CompactBlockData>) -> (r: Vec<CompactBlockData>)
    ensures
        stable_sorted(r@, v@, by_height()),
{
    let ghost orig = v@;
    let mut input = v;
    let mut out: Vec<CompactBlockData> = Vec::new();
    let ghost mut done: int = 0;
    proof {
        lemma_stable_empty(by_height());
        assert(orig.take(0) =~= Seq::<CompactBlockData>::empty());
        assert(input@ =~= orig.skip(0));
    }
    while input.len() > 0
        invariant
            0 <= done <= orig.len(),
            input@ == orig.skip(done),
            stable_sorted(out@, orig.take(done), by_height()),
        decreases input@.len(),
    {
        let ghost before = out@;
        let x = input.remove(0);
        proof {
            assert(orig.skip(done).len() == orig.len() - done);
            assert(x == orig[done]);
            assert(input@ =~= orig.skip(done + 1));
        }
        let mut j = out.len();
        while j > 0 && out[j - 1].height > x.height
            invariant
                j <= out@.len(),
                out@ == before,
                stable_sorted(before, orig.take(done), by_height()),
                forall|i: int| j <= i < out@.len() ==> out@[i].height > x.height,
            decreases j,
        {
            j = j - 1;
        }
        proof {
            assert forall|i: int| 0 <= i < j implies (#[trigger] before[i]).height <= x.height by {
                if i < j - 1 {
                    assert(by_height()(before[i]) <= by_height()(before[j - 1]));
                }
            }
            assert forall|i: int| j <= i < before.len() implies by_height()(#[trigger] before[i]) > by_height()(x) by {
            }
            assert forall|i: int| 0 <= i < j implies by_height()(#[trigger] before[i]) <= by_height()(x) by {
                assert(before[i].height <= x.height);
            }
            lemma_stable_insert(before, orig.take(done), by_height(), j as int, x);
        }
        out.insert(j, x);
        proof {
            assert(orig.take(done).push(orig[done]) =~= orig.take(done + 1));
            done = done + 1;
        }
    }
    proof {
        assert(orig.take(done) =~= orig);
    }
    out
}

/// The blocks of a downloaded range, by ascending height (blocks of equal
/// height in stream order), with the malformed items dropped and counted.
pub fn assemble_blocks(items: Vec<StreamItem>) -> (r: BlockBatch)
    ensures
        stable_sorted(r.blocks@, well_formed(items@), by_height()),
        r.dropped == malformed_count(items@),
{
    let ghost all = items@;
    let ghost f = |i: StreamItem|
        match i {
            StreamItem::Block(b) => Some(b),
            StreamItem::Malformed => None,
        };
    let mut rest = items;
    let total = rest.len();
    let mut kept: Vec<CompactBlockData> = Vec::new();
    let mut dropped: usize = 0;
    let ghost mut done: int = 0;
    proof {
        assert(all.take(0).filter_map(f) =~= Seq::<CompactBlockData>::empty());
        assert(rest@ =~= all.skip(0));
    }
    while rest.len() > 0
        invariant
            0 <= done <= all.len(),
            all.len() == total,
            rest@ == all.skip(done),
            kept@ == all.take(done).filter_map(f),
            dropped == done - kept@.len(),
            f == (|i: StreamItem|
                match i {
                    StreamItem::Block(b) => Some(b),
                    StreamItem::Malformed => None,
                }),
        decreases rest@.len(),
    {
        let item = rest.remove(0);
        proof {
            assert(all.skip(done).len() == all.len() - done);
            assert(item == all[done]);
            all.lemma_filter_map_take_succ(f, done);
            assert(rest@ =~= all.skip(done + 1));
            lemma_well_formed_len(all.take(done));
            lemma_well_formed_len(all.take(done + 1));
        }
        match item {
            StreamItem::Block(b) => {
                kept.push(b);
            },
            StreamItem::Malformed => {
                dropped = dropped + 1;
            },
        }
        proof {
            done = done + 1;
        }
    }
    proof {
        assert(all.take(done) =~= all);
    }
    BlockBatch { blocks: sort_by_height(kept), dropped }
}

} // verus!
