//! Collecting encoded rows into blocks, and handing the blocks out for writing.

use crate::compression::codec::{CodecError, CompressionCodec};
use crate::compression::external;
use crate::writer::long;
use crate::writer::long::write_long;
use vstd::prelude::*;
use vstd::std_specs::cmp::PartialEqSpec;

verus! {

/// The message for [`WriteError::SchemaMismatch`]
pub const SCHEMA_MISMATCH: &'static str = "Schema of RecordBatch differs from Writer schema";

/// The rows that wait for their block to be written.
#[verifier::ext_equal]
pub struct Waiting {
    pub rows: nat,
    /// The encoded rows.
    pub data: Seq<u8>,
}

/// The rows of a block.
#[verifier::ext_equal]
pub struct Block {
    pub rows: nat,
    /// The encoded rows.
    pub data: Seq<u8>,
}

/// The encoded rows are added, and become a block with those that wait if they
/// take `block_size` bytes by now. There is no block without rows.
pub open spec fn add_rows(waiting: Waiting, block_size: nat, rows: nat, data: Seq<u8>) -> (
    Waiting,
    Option<Block>,
) {
    count_rows(Waiting { rows: waiting.rows, data: waiting.data + data }, block_size, rows)
}

/// Rows whose encoded form has been added already are counted.
pub open spec fn count_rows(waiting: Waiting, block_size: nat, rows: nat) -> (
    Waiting,
    Option<Block>,
) {
    let all = Waiting { rows: waiting.rows + rows, data: waiting.data };
    if all.data.len() >= block_size {
        close(all)
    } else {
        (all, None)
    }
}

/// The rows that wait become a block, if there are any.
pub open spec fn close(waiting: Waiting) -> (Waiting, Option<Block>) {
    if waiting.rows > 0 {
        (
            Waiting { rows: 0, data: Seq::empty() },
            Some(Block { rows: waiting.rows, data: waiting.data }),
        )
    } else {
        (waiting, None)
    }
}

/// The contents of a block, as they are written.
pub open spec fn is_payload(
    compression: Option<CompressionCodec>,
    data: Seq<u8>,
    payload: Seq<u8>,
) -> bool {
    payload == match compression {
        Some(codec) => codec.compressed(data),
        None => data,
    }
}

/// What comes in front of a block's contents: the number of its rows, and the
/// length of the contents.
pub open spec fn header(rows: usize, len: usize) -> Seq<u8> {
    long::long(rows as i64 as int) + long::long(len as i64 as int)
}

/// A block, as it is written.
pub open spec fn block_bytes(rows: usize, payload: Seq<u8>, sync: Seq<u8>) -> Seq<u8> {
    header(rows, payload.len() as usize) + payload + sync
}

/// Why rows cannot be written.
#[derive(Debug)]
pub enum WriteError {
    /// The columns are not those that are being written.
    SchemaMismatch,
    /// A block cannot be compressed.
    Codec(CodecError),
}

/// The contents of a block may be refused with `error`: they are to be compressed,
/// and that may fail so, at a call of [`CompressionCodec::compress`] on them.
pub open spec fn may_refuse(
    compression: Option<CompressionCodec>,
    data: Seq<u8>,
    error: WriteError,
) -> bool {
    &&& compression matches Some(codec)
    &&& error matches WriteError::Codec(cause)
    &&& codec.may_refuse(data, cause)
    &&& exists|bytes: &[u8]|
        bytes@ == data && #[trigger] call_ensures(
            CompressionCodec::compress,
            (&codec, bytes),
            Err::<Vec<u8>, CodecError>(cause),
        )
}

/// Where the rows of a batch are to be encoded to.
#[derive(Debug, PartialEq, Eq, Structural, Clone, Copy)]
pub enum Target {
    /// The end of [`BlockWriter::block_buf`], to be followed by a call of
    /// [`BlockWriter::encoded`].
    Block,
    /// An empty buffer, to be handed to [`BlockWriter::stream`].
    Stream,
}

/// What is to be done next.
#[derive(Debug)]
pub enum Action {
    /// Write these bytes. If that succeeds, call [`BlockWriter::advance`], else
    /// [`BlockWriter::abandon`].
    Write(Vec<u8>),
    /// Tell the sink that all has been written.
    Complete,
    /// Nothing.
    Done,
}

/// The part of a block that comes after what was last handed out.
#[derive(Debug)]
pub enum Pending {
    /// There is no block on its way.
    Nothing,
    /// The contents.
    Payload(Vec<u8>),
    /// The marker behind the contents.
    Sync,
    /// The block has been handed out in full.
    End,
}

/// Collects encoded rows into blocks. `S` stands for the columns that are
/// written.
#[derive(Debug)]
pub struct BlockWriter<S> {
    pub fields: S,
    /// The marker behind each block. Without one there are no blocks, and rows are
    /// written as they come.
    pub sync: Option<[u8; 16]>,
    pub compression: Option<CompressionCodec>,
    /// The number of bytes at which a block is full
    pub block_size: usize,
    /// Staging buffer holding the encoded bytes of an in-progress block.
    /// Always empty if there are no blocks.
    pub block_buf: Vec<u8>,
    /// Number of rows currently accumulated in `block_buf`.
    pub block_rows: usize,
    /// What is still to be handed out of a block.
    pub pending: Pending,
    /// Whether the block on its way is the last one.
    pub closing: bool,
}

impl<S: PartialEq> BlockWriter<S> {
    /// The rows that wait for their block to be written.
    pub open spec fn waiting(&self) -> Waiting {
        Waiting { rows: self.block_rows as nat, data: self.block_buf@ }
    }

    /// The settings are those of `other`.
    pub open spec fn same_settings(&self, other: &Self) -> bool {
        &&& self.fields == other.fields
        &&& self.sync == other.sync
        &&& self.compression == other.compression
        &&& self.block_size == other.block_size
    }

    /// Only a writer of blocks can have one on its way.
    pub open spec fn wf(&self) -> bool {
        &&& self.sync is None ==> self.pending is Nothing
        &&& self.pending is Nothing ==> !self.closing
    }

    /// Creates a writer that has nothing to write.
    pub fn from_parts(
        fields: S,
        sync: Option<[u8; 16]>,
        compression: Option<CompressionCodec>,
        block_size: usize,
        capacity: usize,
    ) -> (writer: Self)
        ensures
            writer.wf(),
            writer.fields == fields,
            writer.sync == sync,
            writer.compression == compression,
            writer.block_size == block_size,
            writer.waiting() == (Waiting { rows: 0, data: Seq::empty() }),
            writer.pending is Nothing,
    {
        Self {
            fields,
            sync,
            compression,
            block_size,
            block_buf: Vec::with_capacity(capacity),
            block_rows: 0,
            pending: Pending::Nothing,
            closing: false,
        }
    }

    /// Returns the columns that are written
    pub fn schema(&self) -> (fields: &S)
        ensures
            *fields == self.fields,
    {
        &self.fields
    }

    /// Returns the 16-byte marker behind each block
    pub fn sync_marker(&self) -> (sync: Option<&[u8; 16]>)
        ensures
            match sync {
                Some(sync) => self.sync == Some(*sync),
                None => self.sync is None,
            },
    {
        match &self.sync {
            Some(sync) => Some(sync),
            None => None,
        }
    }

    /// Tells where to encode a batch with columns `fields`
    pub fn write(&self, fields: &S) -> (r: Result<Target, WriteError>)
        ensures
            call_ensures(S::eq, (fields, &self.fields), r is Ok),
            S::obeys_eq_spec() ==> (r is Ok <==> fields.eq_spec(&self.fields)),
            match r {
                Ok(target) => target == if self.sync is Some {
                    Target::Block
                } else {
                    Target::Stream
                },
                Err(error) => error is SchemaMismatch,
            },
    {
        if !(*fields == self.fields) {
            return Err(WriteError::SchemaMismatch);
        }
        match &self.sync {
            Some(_) => Ok(Target::Block),
            None => Ok(Target::Stream),
        }
    }

    /// A block has been started from `before`: its header is the next thing to be
    /// written, and its contents come next.
    pub open spec fn starts_block(&self, before: &Self, action: Action) -> bool {
        &&& self.pending matches Pending::Payload(payload) && {
            &&& is_payload(self.compression, before.block_buf@, payload@)
            &&& match before.compression {
                Some(codec) => exists|data: &[u8]|
                    data@ == before.block_buf@ && #[trigger] call_ensures(
                        CompressionCodec::compress,
                        (&codec, data),
                        Ok::<Vec<u8>, CodecError>(payload),
                    ),
                None => payload@ == before.block_buf@,
            }
            &&& action matches Action::Write(bytes) && bytes@ == header(
                before.block_rows,
                payload@.len() as usize,
            )
        }
        &&& self.compression == Some(CompressionCodec::Snappy) ==> external::snappy_fits(
            before.block_buf@.len(),
        )
        &&& self.same_settings(before)
        &&& self.block_rows == before.block_rows
        &&& self.block_buf@ == if self.compression is Some {
            before.block_buf@
        } else {
            Seq::empty()
        }
    }

    /// Starts the block of the rows that wait. Does nothing if there are none.
    ///
    /// The block is handed out in three parts (header, payload, sync marker) so that
    /// the encoded payload can move into the sink without being copied.
    fn flush_block(&mut self) -> (r: Result<Option<Action>, WriteError>)
        requires
            old(self).sync is Some,
            old(self).pending is Nothing,
        ensures
            final(self).closing == old(self).closing,
            match r {
                Ok(Some(action)) => old(self).block_rows > 0 && final(self).starts_block(
                    old(self),
                    action,
                ),
                Ok(None) => old(self).block_rows == 0 && *final(self) == *old(self),
                Err(error) => {
                    &&& old(self).block_rows > 0
                    &&& may_refuse(old(self).compression, old(self).block_buf@, error)
                    &&& *final(self) == *old(self)
                },
            },
    {
        if self.block_rows == 0 {
            return Ok(None);
        }
        let payload = match &self.compression {
            Some(codec) => match codec.compress(self.block_buf.as_slice()) {
                Ok(compressed) => compressed,
                Err(error) => {
                    return Err(WriteError::Codec(error));
                },
            },
            None => {
                let mut taken: Vec<u8> = Vec::new();
                std::mem::swap(&mut taken, &mut self.block_buf);
                taken
            },
        };
        let mut bytes: Vec<u8> = Vec::with_capacity(16);
        write_long(&mut bytes, self.block_rows as i64);
        write_long(&mut bytes, payload.len() as i64);
        assert(bytes@ =~= header(self.block_rows, payload@.len() as usize));
        self.pending = Pending::Payload(payload);
        Ok(Some(Action::Write(bytes)))
    }

    /// The rows of a batch have been appended to [`Self::block_buf`].
    ///
    /// A block is started only when the configured size is reached. Tiny per-batch
    /// blocks compress poorly and amplify per-block framing overhead.
    pub fn encoded(&mut self, rows: usize) -> (r: Result<Action, WriteError>)
        requires
            old(self).wf(),
            old(self).sync is Some,
            old(self).pending is Nothing,
            old(self).block_rows + rows <= usize::MAX,
        ensures
            final(self).wf(),
            ({
                let size = old(self).block_size as nat;
                let (left, block) = count_rows(old(self).waiting(), size, rows as nat);
                &&& (r is Ok && r->Ok_0 is Done) <==> block is None
                &&& block is None ==> final(self).waiting() == left
            }),
            ({
                let counted = BlockWriter {
                    block_rows: (old(self).block_rows + rows) as usize,
                    ..*old(self)
                };
                let full = counted.block_buf@.len() >= counted.block_size;
                match r {
                    Ok(Action::Write(bytes)) => {
                        &&& full && counted.block_rows > 0
                        &&& final(self).starts_block(&counted, Action::Write(bytes))
                        &&& !final(self).closing
                    },
                    Ok(Action::Done) => {
                        &&& !full || counted.block_rows == 0
                        &&& *final(self) == counted
                    },
                    Ok(Action::Complete) => false,
                    Err(error) => {
                        &&& full && counted.block_rows > 0
                        &&& may_refuse(counted.compression, counted.block_buf@, error)
                        &&& *final(self) == counted
                    },
                }
            }),
    {
        self.block_rows = self.block_rows + rows;
        if self.block_buf.len() >= self.block_size {
            match self.flush_block() {
                Ok(Some(action)) => Ok(action),
                Ok(None) => Ok(Action::Done),
                Err(error) => Err(error),
            }
        } else {
            Ok(Action::Done)
        }
    }

    /// The rows of a batch have been encoded, and are to be written as they are.
    pub fn stream(&self, encoded: Vec<u8>) -> (action: Action)
        requires
            self.sync is None,
        ensures
            action == Action::Write(encoded),
    {
        Action::Write(encoded)
    }

    /// All rows have been encoded. Starts the last block, if rows wait for it.
    pub fn finish(&mut self) -> (r: Result<Action, WriteError>)
        requires
            old(self).wf(),
            old(self).pending is Nothing,
        ensures
            final(self).wf(),
            match r {
                Ok(Action::Write(bytes)) => {
                    &&& old(self).sync is Some && old(self).block_rows > 0
                    &&& final(self).starts_block(old(self), Action::Write(bytes))
                    &&& final(self).closing
                },
                Ok(Action::Complete) => {
                    &&& old(self).sync is None || old(self).block_rows == 0
                    &&& *final(self) == *old(self)
                },
                Ok(Action::Done) => false,
                Err(error) => {
                    &&& old(self).sync is Some && old(self).block_rows > 0
                    &&& may_refuse(old(self).compression, old(self).block_buf@, error)
                    &&& *final(self) == *old(self)
                },
            },
    {
        match &self.sync {
            Some(_) => {},
            None => {
                return Ok(Action::Complete);
            },
        }
        match self.flush_block() {
            Ok(Some(action)) => {
                self.closing = true;
                Ok(action)
            },
            Ok(None) => Ok(Action::Complete),
            Err(error) => Err(error),
        }
    }

    /// What was last handed out by `before` has been written, and `action` is to be
    /// done next.
    pub open spec fn advanced(&self, before: &Self, action: Action) -> bool {
        &&& self.same_settings(before)
        &&& match before.pending {
            Pending::Nothing => action is Done && *self == *before,
            Pending::Payload(payload) => {
                &&& action == Action::Write(payload)
                &&& self.pending is Sync
                &&& self.closing == before.closing
                &&& self.waiting() == before.waiting()
            },
            Pending::Sync => {
                &&& action matches Action::Write(bytes) && bytes@ == before.sync->0@
                &&& self.pending is End
                &&& self.closing == before.closing
                &&& self.waiting() == before.waiting()
            },
            Pending::End => {
                &&& if before.closing {
                    action is Complete
                } else {
                    action is Done
                }
                &&& self.pending is Nothing
                &&& self.waiting() == (Waiting { rows: 0, data: Seq::empty() })
            },
        }
    }

    /// What was last handed out has been written.
    pub fn advance(&mut self) -> (action: Action)
        requires
            old(self).wf(),
        ensures
            final(self).wf(),
            final(self).advanced(old(self), action),
    {
        let mut pending: Pending = Pending::Nothing;
        std::mem::swap(&mut pending, &mut self.pending);
        match pending {
            Pending::Nothing => Action::Done,
            Pending::Payload(payload) => {
                self.pending = Pending::Sync;
                Action::Write(payload)
            },
            Pending::Sync => {
                self.pending = Pending::End;
                let mut bytes: Vec<u8> = Vec::new();
                if let Some(sync) = &self.sync {
                    bytes.extend_from_slice(vstd::array::array_as_slice(sync));
                    assert(bytes@ =~= sync@);
                }
                Action::Write(bytes)
            },
            Pending::End => {
                // If compression was applied, `block_buf` was not moved, so clear it
                // explicitly to drop the encoded source bytes.
                self.block_buf.clear();
                self.block_rows = 0;
                if self.closing {
                    self.closing = false;
                    Action::Complete
                } else {
                    Action::Done
                }
            },
        }
    }

    /// What was last handed out could not be written. The rest of the block is
    /// dropped; its rows stay counted.
    pub fn abandon(&mut self)
        ensures
            final(self).wf(),
            final(self).same_settings(old(self)),
            final(self).pending is Nothing,
            final(self).waiting() == old(self).waiting(),
    {
        self.pending = Pending::Nothing;
        self.closing = false;
    }
}

} // verus!
