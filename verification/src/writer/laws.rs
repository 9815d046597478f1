//! What holds of the blocks that a writer hands out.

use crate::writer::block;
use crate::writer::block::{Action, Block, BlockWriter, Waiting};
use crate::writer::long;
use vstd::prelude::*;

verus! {

/// A block that is started and then written part by part comes out as its header,
/// its contents and the marker. After that no rows wait for a block any more.
pub proof fn lemma_block_written<S: PartialEq>(
    start: &BlockWriter<S>,
    after_start: &BlockWriter<S>,
    after_header: &BlockWriter<S>,
    after_payload: &BlockWriter<S>,
    after_sync: &BlockWriter<S>,
    first: Action,
    second: Action,
    third: Action,
    last: Action,
)
    requires
        start.sync is Some,
        start.block_rows > 0,
        after_start.starts_block(start, first),
        after_header.advanced(after_start, second),
        after_payload.advanced(after_header, third),
        after_sync.advanced(after_payload, last),
    ensures
        first is Write && second is Write && third is Write,
        ({
            let payload = second->Write_0@;
            &&& block::is_payload(start.compression, start.block_buf@, payload)
            &&& first->Write_0@ + payload + third->Write_0@ == block::block_bytes(
                start.block_rows,
                payload,
                start.sync->0@,
            )
        }),
        if after_start.closing {
            last is Complete
        } else {
            last is Done
        },
        after_sync.same_settings(start),
        after_sync.pending is Nothing,
        after_sync.waiting() == block::close(start.waiting()).0,
{
}

/// The rows, the contents and the marker of the block at the start of `bytes`,
/// and what follows it.
pub open spec fn read_block(bytes: Seq<u8>) -> Option<(int, Seq<u8>, Seq<u8>, Seq<u8>)> {
    match long::read_long(bytes) {
        Some((rows, n)) => {
            let sized = bytes.skip(n as int);
            match long::read_long(sized) {
                Some((len, m)) => {
                    let body = sized.skip(m as int);
                    if 0 <= len && len + 16 <= body.len() {
                        Some(
                            (
                                rows,
                                body.take(len),
                                body.subrange(len, len + 16),
                                body.skip(len + 16),
                            ),
                        )
                    } else {
                        None
                    }
                },
                None => None,
            }
        },
        None => None,
    }
}

/// A block can be read back from what is written for it, whatever follows it.
pub proof fn lemma_read_block(rows: usize, payload: Seq<u8>, sync: Seq<u8>, rest: Seq<u8>)
    requires
        rows <= i64::MAX,
        payload.len() <= i64::MAX,
        payload.len() <= usize::MAX,
        sync.len() == 16,
    ensures
        read_block(block::block_bytes(rows, payload, sync) + rest) == Some(
            (rows as int, payload, sync, rest),
        ),
{
    let bytes = block::block_bytes(rows, payload, sync) + rest;
    let len = payload.len() as int;
    let count = long::long(rows as int);
    let size = long::long(len);
    let body = payload + sync + rest;
    long::lemma_read_long(rows as int, size + body);
    long::lemma_read_long(len, body);
    assert(bytes =~= count + (size + body));
    let sized = bytes.skip(count.len() as int);
    assert(sized =~= size + body);
    assert(sized.skip(size.len() as int) =~= body);
    assert(body.take(len) =~= payload);
    assert(body.subrange(len, len + 16) =~= sync);
    assert(body.skip(len + 16) =~= rest);
}

/// The batches are added one after the other. Each is a number of rows and their
/// encoded form.
pub open spec fn add_all(
    waiting: Waiting,
    block_size: nat,
    batches: Seq<(nat, Seq<u8>)>,
) -> (Waiting, Seq<Block>)
    decreases batches.len(),
{
    if batches.len() == 0 {
        (waiting, Seq::empty())
    } else {
        let (before, blocks) = add_all(waiting, block_size, batches.drop_last());
        let (rows, data) = batches.last();
        let (after, block) = block::add_rows(before, block_size, rows, data);
        (
            after,
            match block {
                Some(block) => blocks.push(block),
                None => blocks,
            },
        )
    }
}

/// The number of rows in the batches.
pub open spec fn batch_rows(batches: Seq<(nat, Seq<u8>)>) -> nat
    decreases batches.len(),
{
    if batches.len() == 0 {
        0
    } else {
        batch_rows(batches.drop_last()) + batches.last().0
    }
}

/// The encoded rows of the batches.
pub open spec fn batch_data(batches: Seq<(nat, Seq<u8>)>) -> Seq<u8>
    decreases batches.len(),
{
    if batches.len() == 0 {
        Seq::empty()
    } else {
        batch_data(batches.drop_last()) + batches.last().1
    }
}

/// The number of rows in the blocks.
pub open spec fn block_rows(blocks: Seq<Block>) -> nat
    decreases blocks.len(),
{
    if blocks.len() == 0 {
        0
    } else {
        block_rows(blocks.drop_last()) + blocks.last().rows
    }
}

/// The encoded rows of the blocks.
pub open spec fn block_data(blocks: Seq<Block>) -> Seq<u8>
    decreases blocks.len(),
{
    if blocks.len() == 0 {
        Seq::empty()
    } else {
        block_data(blocks.drop_last()) + blocks.last().data
    }
}

/// Every row that is added is in a block or waits for one, and the encoded rows
/// stay in order.
pub proof fn lemma_no_row_is_lost(
    waiting: Waiting,
    block_size: nat,
    batches: Seq<(nat, Seq<u8>)>,
)
    ensures
        ({
            let (after, blocks) = add_all(waiting, block_size, batches);
            &&& block_rows(blocks) + after.rows == waiting.rows + batch_rows(batches)
            &&& block_data(blocks) + after.data == waiting.data + batch_data(batches)
        }),
    decreases batches.len(),
{
    let (after, blocks) = add_all(waiting, block_size, batches);
    if batches.len() > 0 {
        lemma_no_row_is_lost(waiting, block_size, batches.drop_last());
        let (before, earlier) = add_all(waiting, block_size, batches.drop_last());
        let (rows, data) = batches.last();
        let (_, block) = block::add_rows(before, block_size, rows, data);
        if let Some(block) = block {
            assert(blocks.drop_last() =~= earlier);
        }
        assert(block_data(blocks) + after.data =~= (block_data(earlier) + before.data) + data);
        assert(waiting.data + batch_data(batches) =~= (waiting.data + batch_data(
            batches.drop_last(),
        )) + data);
    } else {
        assert(block_data(blocks) + after.data =~= waiting.data + batch_data(batches));
    }
}

/// No block is without rows, and none is shorter than the block size. Those that
/// wait are shorter, or are no rows.
pub proof fn lemma_blocks_are_full(
    waiting: Waiting,
    block_size: nat,
    batches: Seq<(nat, Seq<u8>)>,
)
    requires
        waiting.data.len() < block_size || waiting.rows == 0,
    ensures
        ({
            let (after, blocks) = add_all(waiting, block_size, batches);
            &&& forall|i: int|
                0 <= i < blocks.len() ==> (#[trigger] blocks[i]).rows > 0 && blocks[i].data.len()
                    >= block_size
            &&& after.data.len() < block_size || after.rows == 0
        }),
    decreases batches.len(),
{
    if batches.len() > 0 {
        lemma_blocks_are_full(waiting, block_size, batches.drop_last());
    }
}

/// With a block size of zero, each batch with rows becomes a block of its own.
pub proof fn lemma_block_per_batch(batches: Seq<(nat, Seq<u8>)>)
    requires
        forall|i: int| 0 <= i < batches.len() ==> (#[trigger] batches[i]).0 > 0,
    ensures
        ({
            let (after, blocks) = add_all(Waiting { rows: 0, data: Seq::empty() }, 0, batches);
            &&& after == (Waiting { rows: 0, data: Seq::empty() })
            &&& blocks.len() == batches.len()
            &&& forall|i: int|
                0 <= i < blocks.len() ==> (#[trigger] blocks[i]) == (Block {
                    rows: batches[i].0,
                    data: batches[i].1,
                })
        }),
    decreases batches.len(),
{
    if batches.len() > 0 {
        lemma_block_per_batch(batches.drop_last());
        let data = batches.last().1;
        assert(Seq::<u8>::empty() + data =~= data);
    }
}

/// Batches that take less than the block size together become one block, which is
/// started at the end.
pub proof fn lemma_small_batches_share_a_block(block_size: nat, batches: Seq<(nat, Seq<u8>)>)
    requires
        batch_data(batches).len() < block_size,
    ensures
        ({
            let (after, blocks) = add_all(
                Waiting { rows: 0, data: Seq::empty() },
                block_size,
                batches,
            );
            &&& blocks.len() == 0
            &&& batch_rows(batches) > 0 ==> block::close(after).1 == Some(
                Block { rows: batch_rows(batches), data: batch_data(batches) },
            )
        }),
    decreases batches.len(),
{
    let none = Waiting { rows: 0, data: Seq::empty() };
    lemma_no_row_is_lost(none, block_size, batches);
    if batches.len() > 0 {
        lemma_small_batches_share_a_block(block_size, batches.drop_last());
        lemma_no_row_is_lost(none, block_size, batches.drop_last());
        let (before, earlier) = add_all(none, block_size, batches.drop_last());
        assert(before.data =~= batch_data(batches.drop_last()));
    }
    let (after, blocks) = add_all(none, block_size, batches);
    assert(after.data =~= batch_data(batches));
}

/// Closing leaves no rows behind, and starts no block without rows.
pub proof fn lemma_close_leaves_nothing(waiting: Waiting)
    ensures
        block::close(waiting).0.rows == 0,
        match block::close(waiting).1 {
            Some(block) => block.rows == waiting.rows && block.rows > 0 && block.data
                == waiting.data,
            None => waiting.rows == 0,
        },
{
}

} // verus!
