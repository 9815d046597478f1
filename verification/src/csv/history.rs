//! What a record decoder has counted after any number of calls.

use crate::csv::flush;
use crate::csv::laws;
use crate::csv::model;
use crate::csv::model::{DecoderState, Layout, Outcome, Record};
use crate::csv::parsing;
use crate::csv::records::RecordDecoder;
use vstd::prelude::*;

verus! {

/// A call that changes a decoder.
pub enum Call {
    Decode { input: Seq<u8>, to_read: nat },
    Flush,
    Clear,
}

/// What has come of some calls.
pub struct History {
    pub state: DecoderState,
    /// The record being read, with all its fields.
    pub open: Record,
    /// The number of records that have made rows since the last clear or the last
    /// flush that gave rows.
    pub buffered: nat,
    /// The number of records with too few fields that have made rows since the last
    /// clear.
    pub short: nat,
    /// The number of records with too many fields that have made rows since the last
    /// clear.
    pub long: nat,
    /// Fields of the record being read had been dropped at the last clear.
    pub cleared_while_skipping: bool,
}

/// Before any call.
pub open spec fn start(state: DecoderState) -> History {
    History {
        state,
        open: state.current,
        buffered: 0,
        short: 0,
        long: 0,
        cleared_while_skipping: false,
    }
}

/// After one call more.
pub open spec fn step(layout: Layout, before: History, call: Call) -> History {
    let state = before.state;
    match call {
        Call::Decode { input, to_read } => {
            let records = parsing::records_of_call(
                state.started,
                state.machine,
                before.open,
                input,
            ).0;
            let added = parsing::accepted(layout, parsing::first(records, to_read));
            let (after, open) = match model::decode(layout, state, input, to_read) {
                Outcome::Done { state: after, .. } => (
                    after,
                    parsing::open_after(state.started, state.machine, before.open, input, to_read),
                ),
                Outcome::Failed { state: after, .. } => (after, after.current),
            };
            History {
                state: after,
                open,
                buffered: before.buffered + added.len(),
                short: before.short + parsing::count_short(layout, added),
                long: before.long + parsing::count_long(layout, added),
                ..before
            }
        },
        Call::Flush => if state.current == Record::empty() && forall|row: int|
            0 <= row < state.rows.len() ==> flush::is_text(#[trigger] state.rows[row]) {
            History {
                state: DecoderState { rows: Seq::empty(), ..state },
                buffered: 0,
                ..before
            }
        } else {
            before
        },
        Call::Clear => History {
            state: DecoderState { rows: Seq::empty(), truncated: 0, extra: 0, ..state },
            buffered: 0,
            short: 0,
            long: 0,
            cleared_while_skipping: state.skipping,
            ..before
        },
    }
}

/// After all of `calls`.
pub open spec fn history(layout: Layout, first: DecoderState, calls: Seq<Call>) -> History
    decreases calls.len(),
{
    if calls.len() == 0 {
        start(first)
    } else {
        step(layout, history(layout, first, calls.drop_last()), calls.last())
    }
}

/// The counts that a decoder keeps are those of its history.
pub open spec fn counts_agree(layout: Layout, history: History) -> bool {
    &&& history.state.rows.len() == history.buffered
    &&& history.state.truncated == history.short
    &&& laws::settled(history.state) == history.long - if history.cleared_while_skipping {
        1int
    } else {
        0
    }
    &&& !layout.truncated_rows ==> history.short == 0
    &&& !layout.ignore_extra_columns ==> {
        &&& history.long == 0
        &&& !history.cleared_while_skipping
        &&& !history.state.skipping
    }
}

/// Records that make rows are filled up or cut only where the layout allows it.
proof fn lemma_accepted(layout: Layout, records: Seq<Record>)
    ensures
        !layout.truncated_rows ==> parsing::count_short(
            layout,
            parsing::accepted(layout, records),
        ) == 0,
        !layout.ignore_extra_columns ==> parsing::count_long(
            layout,
            parsing::accepted(layout, records),
        ) == 0,
    decreases records.len(),
{
    if records.len() > 0 && parsing::is_accepted(layout, records[0]) {
        lemma_accepted(layout, records.drop_first());
        let rest = parsing::accepted(layout, records.drop_first());
        assert(parsing::accepted(layout, records).drop_first() =~= rest);
    }
}

proof fn lemma_step(layout: Layout, before: History, call: Call)
    requires
        layout.ignore_extra_columns ==> layout.num_columns > 0,
        parsing::tracks(layout, before.state, before.open),
        counts_agree(layout, before),
    ensures
        parsing::tracks(layout, step(layout, before, call).state, step(layout, before, call).open),
        counts_agree(layout, step(layout, before, call)),
{
    if let Call::Decode { input, to_read } = call {
        let state = before.state;
        parsing::lemma_decode_records(layout, state, before.open, input, to_read);
        let records = parsing::records_of_call(
            state.started,
            state.machine,
            before.open,
            input,
        ).0;
        lemma_accepted(layout, parsing::first(records, to_read));
    }
}

/// However often a decoder has been fed, flushed and cleared: it holds the rows of
/// the records that have made rows since it was last cleared or gave its rows away,
/// and has counted those with too few and those with too many fields since it was
/// last cleared.
pub proof fn lemma_counts_after_calls(layout: Layout, first: DecoderState, calls: Seq<Call>)
    requires
        layout.ignore_extra_columns ==> layout.num_columns > 0,
        first.rows.len() == 0,
        first.current == Record::empty(),
        !first.skipping,
        first.truncated == 0,
        first.extra == 0,
    ensures
        parsing::tracks(
            layout,
            history(layout, first, calls).state,
            history(layout, first, calls).open,
        ),
        counts_agree(layout, history(layout, first, calls)),
    decreases calls.len(),
{
    if calls.len() > 0 {
        lemma_counts_after_calls(layout, first, calls.drop_last());
        lemma_step(layout, history(layout, first, calls.drop_last()), calls.last());
    }
}

/// `call` has taken a decoder from `before` to `after`.
pub open spec fn leads_to(before: &RecordDecoder, call: Call, after: &RecordDecoder) -> bool {
    &&& before.wf()
    &&& after.layout() == before.layout()
    &&& match call {
        Call::Decode { input, to_read } => match model::decode(
            before.layout(),
            before@,
            input,
            to_read,
        ) {
            Outcome::Done { state, .. } => after@ == state,
            Outcome::Failed { state, .. } => after@ == state,
        },
        Call::Flush => {
            &&& before.is_partial() || before.is_flushable()
            &&& match before.flush_error() {
                None => after@ == (DecoderState { rows: Seq::empty(), ..before@ }),
                Some(_) => *after == *before,
            }
        },
        Call::Clear => after@ == (DecoderState {
            rows: Seq::empty(),
            truncated: 0,
            extra: 0,
            ..before@
        }),
    }
}

/// `decoders` is a new decoder, followed by what it is after each of `calls`.
pub open spec fn is_run(decoders: Seq<RecordDecoder>, calls: Seq<Call>) -> bool {
    &&& decoders.len() == calls.len() + 1
    &&& decoders[0]@.rows.len() == 0
    &&& decoders[0]@.current == Record::empty()
    &&& !decoders[0]@.skipping
    &&& decoders[0]@.truncated == 0
    &&& decoders[0]@.extra == 0
    &&& decoders[0].wf()
    &&& forall|i: int|
        0 <= i < calls.len() ==> leads_to(
            &decoders[i],
            #[trigger] calls[i],
            &decoders[i + 1],
        )
}

proof fn lemma_run(decoders: Seq<RecordDecoder>, calls: Seq<Call>)
    requires
        is_run(decoders, calls),
    ensures
        ({
            let after = history(decoders[0].layout(), decoders[0]@, calls);
            let last = decoders.last();
            &&& last.layout() == decoders[0].layout()
            &&& last@ == after.state
        }),
    decreases calls.len(),
{
    let n = calls.len() as int;
    if n > 0 {
        let shorter = calls.drop_last();
        let earlier = decoders.drop_last();
        assert forall|i: int| 0 <= i < shorter.len() implies leads_to(
            &earlier[i],
            #[trigger] shorter[i],
            &earlier[i + 1],
        ) by {
            assert(leads_to(&decoders[i], calls[i], &decoders[i + 1]));
        }
        lemma_run(earlier, shorter);
        let before = decoders[n - 1];
        assert(leads_to(&before, calls[n - 1], &decoders[n]));
        if calls[n - 1] is Flush {
            assert(before@.current.ends.len() == before.current_field);
            assert(before@.current.bytes.len() == before.data_len - before.record_data_start);
            if !before.is_partial() {
                assert(before@.current =~= Record::empty());
                before.lemma_flush_accepts_text();
            }
        }
    }
}

/// What the getters of a decoder say after any number of calls. The number of rows
/// is the number of records that have made rows since the last clear, or the last
/// flush that gave rows. The two counts are the numbers of records that have made
/// rows since the last clear, in spite of too few or too many fields.
///
/// A record that loses fields is counted as soon as they are dropped. So there is
/// one count more while such a record is being read, and one less if it was being
/// read when the decoder was cleared.
pub proof fn lemma_getters_after_calls(decoders: Seq<RecordDecoder>, calls: Seq<Call>)
    requires
        is_run(decoders, calls),
    ensures
        ({
            let after = history(decoders[0].layout(), decoders[0]@, calls);
            let last = decoders.last();
            &&& last.num_rows == after.buffered
            &&& last.truncated_row_count == after.short
            &&& last.extra_column_row_count == after.long + if last.skipping {
                1int
            } else {
                0
            } - if after.cleared_while_skipping {
                1int
            } else {
                0
            }
            &&& !last.truncated_rows ==> last.truncated_row_count == 0
            &&& !last.ignore_extra_columns ==> last.extra_column_row_count == 0
        }),
{
    lemma_counts_after_calls(decoders[0].layout(), decoders[0]@, calls);
    lemma_run(decoders, calls);
    assert(decoders.last()@.rows.len() == decoders.last().num_rows);
}

} // verus!
