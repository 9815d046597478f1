//! What a writer hands out over the calls that write its rows.

use crate::compression::codec;
use crate::compression::codec::{CodecError, CompressionCodec};
use crate::writer::block::{Action, BlockWriter, Target, WriteError};
use crate::writer::laws;
use crate::writer::long::write_long;
use vstd::prelude::*;

verus! {

/// The two writers write the same columns, in the same way.
pub open spec fn written_alike<S>(one: BlockWriter<S>, other: BlockWriter<S>) -> bool {
    &&& one.fields == other.fields
    &&& one.sync == other.sync
    &&& one.compression == other.compression
    &&& one.block_size == other.block_size
}

/// Nothing is on its way, and the last block is yet to come.
pub open spec fn is_idle<S>(writer: BlockWriter<S>) -> bool {
    writer.pending is Nothing && !writer.closing
}

/// There is an element `i` in a sequence of length `len`.
pub open spec fn is_index(i: int, len: nat) -> bool {
    0 <= i < len
}

/// Rows wait until their encoded form takes the block size, and then become a block,
/// whatever its length. Nothing but the compressor can refuse them, and then only
/// with what it has returned for the encoded rows; they wait on.
pub proof fn lemma_rows_wait_for_a_full_block<S: PartialEq>(
    before: BlockWriter<S>,
    rows: usize,
    r: Result<Action, WriteError>,
    after: BlockWriter<S>,
)
    requires
        is_idle(before),
        before.sync is Some,
        before.block_rows + rows <= usize::MAX,
        exists|writer: &mut BlockWriter<S>| #[trigger]
            call_ensures(BlockWriter::<S>::encoded, (writer, rows), r) && *writer == before
                && *final(writer) == after,
    ensures
        written_alike(after, before),
        after.block_rows == before.block_rows + rows,
        !after.closing,
        before.block_buf@.len() < before.block_size || before.block_rows + rows == 0 ==> {
            &&& r matches Ok(Action::Done)
            &&& after.block_buf@ == before.block_buf@
            &&& is_idle(after)
        },
        before.block_buf@.len() >= before.block_size && before.block_rows + rows > 0 ==> match r {
            Ok(action) => {
                &&& action is Write && after.pending is Payload
                &&& after.block_buf@ == if before.compression is Some {
                    before.block_buf@
                } else {
                    Seq::empty()
                }
            },
            Err(WriteError::Codec(cause)) => {
                &&& before.compression matches Some(codec) && exists|data: &[u8]|
                    data@ == before.block_buf@ && #[trigger] call_ensures(
                        CompressionCodec::compress,
                        (&codec, data),
                        Err::<Vec<u8>, CodecError>(cause),
                    )
                &&& after.block_buf@ == before.block_buf@
                &&& is_idle(after)
            },
            Err(WriteError::SchemaMismatch) => false,
        },
{
}

/// The last rows become a block, however few they are. Without rows, or without
/// blocks, there is nothing left to be written.
pub proof fn lemma_finish_writes_the_last_rows<S: PartialEq>(
    before: BlockWriter<S>,
    r: Result<Action, WriteError>,
    after: BlockWriter<S>,
)
    requires
        is_idle(before),
        exists|writer: &mut BlockWriter<S>| #[trigger]
            call_ensures(BlockWriter::<S>::finish, (writer,), r) && *writer == before && *final(writer) == after,
    ensures
        written_alike(after, before),
        after.block_rows == before.block_rows,
        before.sync is None || before.block_rows == 0 ==> {
            &&& r matches Ok(Action::Complete)
            &&& after == before
        },
        before.sync is Some && before.block_rows > 0 ==> match r {
            Ok(action) => {
                &&& action is Write && after.pending is Payload && after.closing
                &&& after.block_buf@ == if before.compression is Some {
                    before.block_buf@
                } else {
                    Seq::empty()
                }
            },
            Err(WriteError::Codec(cause)) => {
                &&& before.compression matches Some(codec) && exists|data: &[u8]|
                    data@ == before.block_buf@ && #[trigger] call_ensures(
                        CompressionCodec::compress,
                        (&codec, data),
                        Err::<Vec<u8>, CodecError>(cause),
                    )
                &&& after == before
            },
            Err(WriteError::SchemaMismatch) => false,
        },
{
}

/// The payload of a block is what the compressor has made of `data`, or `data`
/// themselves if there is none. What the codec decompresses it to is `data` again.
proof fn lemma_payload(compression: Option<CompressionCodec>, data: Seq<u8>, payload: Vec<u8>)
    requires
        match compression {
            Some(codec) => exists|bytes: &[u8]|
                bytes@ == data && #[trigger] call_ensures(
                    CompressionCodec::compress,
                    (&codec, bytes),
                    Ok::<Vec<u8>, CodecError>(payload),
                ),
            None => payload@ == data,
        },
    ensures
        compression matches Some(codec) ==> forall|
            block: &[u8],
            r: Result<Vec<u8>, CodecError>,
        |
            block@ == payload@ && #[trigger] call_ensures(
                CompressionCodec::decompress,
                (&codec, block),
                r,
            ) ==> {
                &&& r matches Ok(out) ==> out@ == data
                &&& codec is Deflate || codec is Snappy ==> r is Ok
            },
{
    if let Some(codec) = compression {
        let bytes = choose|bytes: &[u8]|
            bytes@ == data && #[trigger] call_ensures(
                CompressionCodec::compress,
                (&codec, bytes),
                Ok::<Vec<u8>, CodecError>(payload),
            );
        assert forall|block: &[u8], r: Result<Vec<u8>, CodecError>|
            block@ == payload@ && #[trigger] call_ensures(
                CompressionCodec::decompress,
                (&codec, block),
                r,
            ) implies {
            &&& r matches Ok(out) ==> out@ == data
            &&& codec is Deflate || codec is Snappy ==> r is Ok
        } by {
            codec::lemma_decompress_undoes_compress(codec, codec, bytes, payload, block, r);
        }
    }
}

/// A full block can be read back from the bytes that are written for it, whatever
/// follows them: the number of its rows, its contents, and the marker. The contents
/// are what the compressor has made of the encoded rows, of any length, and are
/// decompressed to just these; without a compressor they are the encoded rows. Then
/// no rows wait any more, and there is nothing to do.
pub proof fn lemma_full_block_reads_back<S: PartialEq>(
    before: BlockWriter<S>,
    rows: usize,
    first: Action,
    second: Action,
    third: Action,
    last: Action,
    after_first: BlockWriter<S>,
    after_second: BlockWriter<S>,
    after_third: BlockWriter<S>,
    after: BlockWriter<S>,
    rest: Seq<u8>,
)
    requires
        is_idle(before),
        before.sync is Some,
        before.block_rows + rows <= i64::MAX,
        before.block_rows + rows <= usize::MAX,
        exists|writer: &mut BlockWriter<S>| #[trigger]
            call_ensures(
                BlockWriter::<S>::encoded,
                (writer, rows),
                Ok::<Action, WriteError>(first),
            ) && *writer == before && *final(writer) == after_first,
        first is Write,
        exists|writer: &mut BlockWriter<S>| #[trigger]
            call_ensures(BlockWriter::<S>::advance, (writer,), second) && *writer == after_first
                && *final(writer) == after_second,
        exists|writer: &mut BlockWriter<S>| #[trigger]
            call_ensures(BlockWriter::<S>::advance, (writer,), third) && *writer == after_second
                && *final(writer) == after_third,
        exists|writer: &mut BlockWriter<S>| #[trigger]
            call_ensures(BlockWriter::<S>::advance, (writer,), last) && *writer == after_third
                && *final(writer) == after,
        second is Write ==> second->Write_0@.len() <= i64::MAX,
    ensures
        second is Write && third is Write && last is Done,
        before.block_rows + rows > 0,
        // the header is the number of rows and the length of the contents
        forall|one: &mut Vec<u8>, two: &mut Vec<u8>|
            one@.len() == 0 && *two == *final(one) && #[trigger] call_ensures(
                write_long,
                (one, (before.block_rows + rows) as usize as i64),
                (),
            ) && #[trigger] call_ensures(
                write_long,
                (two, second->Write_0@.len() as usize as i64),
                (),
            ) ==> first->Write_0@ == final(two)@,
        third->Write_0@ == before.sync->0@,
        laws::read_block(first->Write_0@ + second->Write_0@ + third->Write_0@ + rest) == Some(
            (
                (before.block_rows + rows) as int,
                second->Write_0@,
                before.sync->0@,
                rest,
            ),
        ),
        match before.compression {
            Some(codec) => {
                &&& exists|data: &[u8]|
                    data@ == before.block_buf@ && #[trigger] call_ensures(
                        CompressionCodec::compress,
                        (&codec, data),
                        Ok::<Vec<u8>, CodecError>(second->Write_0),
                    )
                &&& forall|block: &[u8], r: Result<Vec<u8>, CodecError>|
                    block@ == second->Write_0@ && #[trigger] call_ensures(
                        CompressionCodec::decompress,
                        (&codec, block),
                        r,
                    ) ==> {
                        &&& r matches Ok(out) ==> out@ == before.block_buf@
                        &&& codec is Deflate || codec is Snappy ==> r is Ok
                    }
            },
            None => second->Write_0@ == before.block_buf@,
        },
        written_alike(after, before),
        is_idle(after),
        after.block_rows == 0,
        after.block_buf@ == Seq::<u8>::empty(),
{
    let payload = second->Write_0;
    let sync = before.sync->0@;
    let total = (before.block_rows + rows) as usize;
    assert(after_first.pending->Payload_0 == payload);
    lemma_payload(before.compression, before.block_buf@, payload);
    assert(payload.len() <= usize::MAX);
    laws::lemma_read_block(total, payload@, sync, rest);
}

/// The same holds of the last block. After it all has been written.
pub proof fn lemma_last_block_reads_back<S: PartialEq>(
    before: BlockWriter<S>,
    first: Action,
    second: Action,
    third: Action,
    last: Action,
    after_first: BlockWriter<S>,
    after_second: BlockWriter<S>,
    after_third: BlockWriter<S>,
    after: BlockWriter<S>,
    rest: Seq<u8>,
)
    requires
        is_idle(before),
        before.block_rows <= i64::MAX,
        exists|writer: &mut BlockWriter<S>| #[trigger]
            call_ensures(BlockWriter::<S>::finish, (writer,), Ok::<Action, WriteError>(first))
                && *writer == before && *final(writer) == after_first,
        first is Write,
        exists|writer: &mut BlockWriter<S>| #[trigger]
            call_ensures(BlockWriter::<S>::advance, (writer,), second) && *writer == after_first
                && *final(writer) == after_second,
        exists|writer: &mut BlockWriter<S>| #[trigger]
            call_ensures(BlockWriter::<S>::advance, (writer,), third) && *writer == after_second
                && *final(writer) == after_third,
        exists|writer: &mut BlockWriter<S>| #[trigger]
            call_ensures(BlockWriter::<S>::advance, (writer,), last) && *writer == after_third
                && *final(writer) == after,
        second is Write ==> second->Write_0@.len() <= i64::MAX,
    ensures
        second is Write && third is Write && last is Complete,
        before.block_rows > 0,
        // the header is the number of rows and the length of the contents
        forall|one: &mut Vec<u8>, two: &mut Vec<u8>|
            one@.len() == 0 && *two == *final(one) && #[trigger] call_ensures(
                write_long,
                (one, before.block_rows as i64),
                (),
            ) && #[trigger] call_ensures(
                write_long,
                (two, second->Write_0@.len() as usize as i64),
                (),
            ) ==> first->Write_0@ == final(two)@,
        third->Write_0@ == before.sync->0@,
        laws::read_block(first->Write_0@ + second->Write_0@ + third->Write_0@ + rest) == Some(
            (before.block_rows as int, second->Write_0@, before.sync->0@, rest),
        ),
        match before.compression {
            Some(codec) => {
                &&& exists|data: &[u8]|
                    data@ == before.block_buf@ && #[trigger] call_ensures(
                        CompressionCodec::compress,
                        (&codec, data),
                        Ok::<Vec<u8>, CodecError>(second->Write_0),
                    )
                &&& forall|block: &[u8], r: Result<Vec<u8>, CodecError>|
                    block@ == second->Write_0@ && #[trigger] call_ensures(
                        CompressionCodec::decompress,
                        (&codec, block),
                        r,
                    ) ==> {
                        &&& r matches Ok(out) ==> out@ == before.block_buf@
                        &&& codec is Deflate || codec is Snappy ==> r is Ok
                    }
            },
            None => second->Write_0@ == before.block_buf@,
        },
        written_alike(after, before),
        is_idle(after),
        after.block_rows == 0,
        after.block_buf@ == Seq::<u8>::empty(),
{
    let payload = second->Write_0;
    let sync = before.sync->0@;
    assert(after_first.pending->Payload_0 == payload);
    lemma_payload(before.compression, before.block_buf@, payload);
    assert(payload.len() <= usize::MAX);
    laws::lemma_read_block(before.block_rows, payload@, sync, rest);
}

/// Without a marker the batches are written as they come, in order, and with nothing
/// in between: after each there is nothing more to do. The sink is completed by
/// finishing, and by that alone.
pub proof fn lemma_stream_is_written_as_it_comes<S: PartialEq>(
    writers: Seq<BlockWriter<S>>,
    batches: Seq<Vec<u8>>,
    writes: Seq<Action>,
    actions: Seq<Action>,
)
    requires
        writers.len() == batches.len() + 1,
        writes.len() == batches.len(),
        actions.len() == batches.len(),
        writers[0].sync is None,
        is_idle(writers[0]),
        forall|i: int|
            0 <= i < batches.len() ==> call_ensures(
                BlockWriter::<S>::stream,
                (&writers[i], batches[i]),
                #[trigger] writes[i],
            ),
        forall|i: int| #[trigger]
            is_index(i, actions.len()) ==> exists|writer: &mut BlockWriter<S>| #[trigger]
                call_ensures(BlockWriter::<S>::advance, (writer,), actions[i]) && *writer
                    == writers[i] && *final(writer) == writers[i + 1],
    ensures
        forall|i: int|
            0 <= i < batches.len() ==> (#[trigger] writes[i]) == Action::Write(batches[i])
                && actions[i] is Done,
        writers.last() == writers[0],
        forall|writer: &mut BlockWriter<S>, r: Result<Action, WriteError>|
            *writer == writers.last() && #[trigger] call_ensures(
                BlockWriter::<S>::finish,
                (writer,),
                r,
            ) ==> (r matches Ok(Action::Complete)) && *final(writer) == *writer,
{
    lemma_stream_leaves_the_writer(writers, actions, actions.len() as int);
    assert forall|i: int| 0 <= i < batches.len() implies (#[trigger] writes[i]) == Action::Write(
        batches[i],
    ) && actions[i] is Done by {
        lemma_stream_leaves_the_writer(writers, actions, i + 1);
    }
}

/// Nothing changes while a stream is written.
proof fn lemma_stream_leaves_the_writer<S: PartialEq>(
    writers: Seq<BlockWriter<S>>,
    actions: Seq<Action>,
    n: int,
)
    requires
        0 <= n <= actions.len(),
        writers[0].sync is None,
        is_idle(writers[0]),
        forall|i: int| #[trigger]
            is_index(i, actions.len()) ==> exists|writer: &mut BlockWriter<S>| #[trigger]
                call_ensures(BlockWriter::<S>::advance, (writer,), actions[i]) && *writer
                    == writers[i] && *final(writer) == writers[i + 1],
    ensures
        writers[n] == writers[0],
        n > 0 ==> actions[n - 1] is Done,
    decreases n,
{
    if n > 0 {
        lemma_stream_leaves_the_writer(writers, actions, n - 1);
        assert(is_index(n - 1, actions.len()));
    }
}

/// However rows are added, blocks started, parts of them written or given up: as long
/// as the writer is not told to finish, it never says that all has been written.
pub proof fn lemma_only_finishing_completes<S: PartialEq>(
    writers: Seq<BlockWriter<S>>,
    results: Seq<Result<Action, WriteError>>,
)
    requires
        writers.len() == results.len() + 1,
        is_idle(writers[0]),
        forall|i: int|
            #![trigger results[i]]
            0 <= i < results.len() ==> {
                // encoded rows have been appended
                ||| writers[i + 1] == (BlockWriter {
                    block_buf: writers[i + 1].block_buf,
                    ..writers[i]
                }) && results[i] == Ok::<Action, WriteError>(Action::Done)
                ||| exists|writer: &mut BlockWriter<S>, rows: usize| #[trigger]
                    call_ensures(BlockWriter::<S>::encoded, (writer, rows), results[i]) && *writer
                        == writers[i] && *final(writer) == writers[i + 1]
                ||| exists|writer: &mut BlockWriter<S>, action: Action| #[trigger]
                    call_ensures(BlockWriter::<S>::advance, (writer,), action) && results[i]
                        == Ok::<Action, WriteError>(action) && *writer == writers[i] && *final(writer) == writers[i + 1]
                ||| exists|writer: &mut BlockWriter<S>| #[trigger]
                    call_ensures(BlockWriter::<S>::abandon, (writer,), ()) && *writer
                        == writers[i] && *final(writer) == writers[i + 1] && results[i] == Ok::<
                        Action,
                        WriteError,
                    >(Action::Done)
            },
    ensures
        forall|i: int|
            0 <= i < results.len() ==> !((#[trigger] results[i]) matches Ok(Action::Complete)),
        !writers.last().closing,
    decreases results.len(),
{
    let n = results.len() as int;
    if n > 0 {
        let fewer = writers.drop_last();
        let earlier = results.drop_last();
        assert(fewer.last() == writers[n - 1]);
        assert(forall|i: int| #![trigger earlier[i]] 0 <= i < n - 1 ==> earlier[i] == results[i]);
        lemma_only_finishing_completes(fewer, earlier);
        let last = results[n - 1];
        assert(!(last matches Ok(Action::Complete)) && !writers[n].closing);
        assert forall|i: int| 0 <= i < n implies !((#[trigger] results[i]) matches Ok(
            Action::Complete,
        )) by {
            if i < n - 1 {
                assert(earlier[i] == results[i]);
            }
        }
    }
}

/// What could not be written is given up: nothing is on its way any more, and the
/// rows stay counted.
pub proof fn lemma_abandoned_rows_stay_counted<S: PartialEq>(
    before: BlockWriter<S>,
    after: BlockWriter<S>,
)
    requires
        exists|writer: &mut BlockWriter<S>| #[trigger]
            call_ensures(BlockWriter::<S>::abandon, (writer,), ()) && *writer == before && *final(writer) == after,
    ensures
        written_alike(after, before),
        is_idle(after),
        after.block_rows == before.block_rows,
        after.block_buf@ == before.block_buf@,
{
}

/// A new writer has no rows, and nothing on its way.
pub proof fn lemma_new_writer<S: PartialEq>(
    fields: S,
    sync: Option<[u8; 16]>,
    compression: Option<CompressionCodec>,
    block_size: usize,
    capacity: usize,
    writer: BlockWriter<S>,
)
    requires
        call_ensures(
            BlockWriter::<S>::from_parts,
            (fields, sync, compression, block_size, capacity),
            writer,
        ),
    ensures
        is_idle(writer),
        writer.block_rows == 0,
        writer.block_buf@ == Seq::<u8>::empty(),
        writer.compression == compression,
        writer.block_size == block_size,
        writer.fields == fields,
        writer.sync == sync,
{
}

/// A writer takes batches with the columns that it was made for, for blocks just if
/// it was given a marker. It tells what they are.
pub proof fn lemma_batches_with_the_columns_are_taken<S: PartialEq>(
    writer: BlockWriter<S>,
    fields: &S,
    r: Result<Target, WriteError>,
    given: &S,
    marker: Option<&[u8; 16]>,
)
    requires
        call_ensures(BlockWriter::<S>::write, (&writer, fields), r),
        call_ensures(BlockWriter::<S>::schema, (&writer,), given),
        call_ensures(BlockWriter::<S>::sync_marker, (&writer,), marker),
    ensures
        call_ensures(S::eq, (fields, &writer.fields), r is Ok),
        match r {
            Ok(Target::Block) => writer.sync is Some,
            Ok(Target::Stream) => writer.sync is None,
            Err(error) => error is SchemaMismatch,
        },
        *given == writer.fields,
        match marker {
            Some(bytes) => writer.sync == Some(*bytes),
            None => writer.sync is None,
        },
{
}

/// What can be asked of a writer that has nothing on its way: to finish, to start a
/// block if it has a marker, and to write a stream if it has none.
pub proof fn lemma_calls_are_accepted<S: PartialEq>(
    writer: BlockWriter<S>,
    rows: usize,
    encoded: Vec<u8>,
)
    requires
        is_idle(writer),
    ensures
        forall|w: &mut BlockWriter<S>|
            *w == writer ==> #[trigger] call_requires(BlockWriter::<S>::finish, (w,)),
        forall|w: &mut BlockWriter<S>|
            *w == writer ==> #[trigger] call_requires(BlockWriter::<S>::advance, (w,)),
        forall|w: &mut BlockWriter<S>|
            *w == writer && writer.sync is Some && writer.block_rows + rows <= usize::MAX
                ==> #[trigger] call_requires(BlockWriter::<S>::encoded, (w, rows)),
        writer.sync is None ==> call_requires(BlockWriter::<S>::stream, (&writer, encoded)),
{
}

} // verus!
