//! What is changed in a recording: a stream is replaced by an empty one, and rows are appended to
//! it. A writer keeps to the streams that it was made for.

use crate::ieee::F64Bits;
use crate::memory2::{has_stream, RawRow};
use crate::text::texts;
use vstd::prelude::*;

verus! {

// ---- a recording and its changes ----

/// What a recording holds of a row.
#[verifier::ext_equal]
pub struct Entry {
    pub ts: F64Bits,
    pub pose: Option<[F64Bits; 7]>,
    pub tags: Seq<char>,
    pub blob: Seq<u8>,
}

/// A stream: the message type of its payloads, and its rows as they were appended.
#[verifier::ext_equal]
pub struct Table {
    pub module: Seq<char>,
    pub rows: Seq<Entry>,
}

/// A change of one stream.
#[verifier::ext_equal]
pub enum Edit {
    Replaced { stream: Seq<char>, module: Seq<char> },
    Appended { stream: Seq<char>, row: Entry },
}

/// A change of one stream, to be carried out on the tables of the recording.
#[derive(Debug)]
pub enum Change {
    /// Make an empty stream, in the place of one that may be there.
    Replace { stream: String, module: String },
    /// Append a row to a stream that is there.
    Append { stream: String, row: RawRow },
}

pub open spec fn entry_of(row: RawRow) -> Entry {
    Entry { ts: row.ts, pose: row.pose, tags: row.tags_json@, blob: row.blob@ }
}

pub open spec fn edit_of(change: Change) -> Edit {
    match change {
        Change::Replace { stream, module } => Edit::Replaced { stream: stream@, module: module@ },
        Change::Append { stream, row } => Edit::Appended { stream: stream@, row: entry_of(row) },
    }
}

pub open spec fn edits_of(changes: Seq<Change>) -> Seq<Edit> {
    changes.map_values(|change: Change| edit_of(change))
}

/// The stream that is changed.
pub open spec fn edited(edit: Edit) -> Seq<char> {
    match edit {
        Edit::Replaced { stream, module } => stream,
        Edit::Appended { stream, row } => stream,
    }
}

/// A recording, by the names of its streams, after a change.
pub open spec fn after_edit(recording: Map<Seq<char>, Table>, edit: Edit) -> Map<Seq<char>, Table> {
    match edit {
        Edit::Replaced { stream, module } => recording.insert(
            stream,
            Table { module, rows: Seq::empty() },
        ),
        Edit::Appended { stream, row } => if recording.contains_key(stream) {
            let table = recording[stream];
            recording.insert(stream, Table { module: table.module, rows: table.rows.push(row) })
        } else {
            recording
        },
    }
}

/// A recording after changes in turn.
pub open spec fn after_edits(recording: Map<Seq<char>, Table>, edits: Seq<Edit>) -> Map<
    Seq<char>,
    Table,
>
    decreases edits.len(),
{
    if edits.len() == 0 {
        recording
    } else {
        after_edit(after_edits(recording, edits.drop_last()), edits.last())
    }
}

/// No other streams than these are changed.
pub open spec fn is_confined(edits: Seq<Edit>, names: Seq<Seq<char>>) -> bool {
    forall|i: int| 0 <= i < edits.len() ==> names.contains(#[trigger] edited(edits[i]))
}

/// The change makes an empty stream of that name.
pub open spec fn replaces(edit: Edit, name: Seq<char>) -> bool {
    edit is Replaced && edited(edit) == name
}

/// One of the changes makes an empty stream of that name.
pub open spec fn is_replaced(edits: Seq<Edit>, name: Seq<char>) -> bool {
    exists|i: int| 0 <= i < edits.len() && #[trigger] replaces(edits[i], name)
}

/// All of these streams are made anew.
pub open spec fn are_replaced(edits: Seq<Edit>, names: Seq<Seq<char>>) -> bool {
    forall|i: int| 0 <= i < names.len() ==> is_replaced(edits, #[trigger] names[i])
}

/// Rows are appended only to streams that were made anew before.
pub open spec fn starts_over(edits: Seq<Edit>) -> bool {
    forall|n: int|
        0 <= n < edits.len() ==> (#[trigger] edits[n]) is Replaced || is_replaced(
            edits.take(n),
            edited(edits[n]),
        )
}

/// The changes that write a stream with these rows.
pub open spec fn stream_edits(stream: Seq<char>, module: Seq<char>, rows: Seq<Entry>) -> Seq<Edit> {
    seq![Edit::Replaced { stream, module }] + appended(stream, rows)
}

/// The changes that append these rows to a stream.
pub open spec fn appended(stream: Seq<char>, rows: Seq<Entry>) -> Seq<Edit> {
    rows.map_values(|row: Entry| Edit::Appended { stream, row })
}

// ---- what changes do ----

/// Changes can be made in two parts.
pub proof fn lemma_edits_join(recording: Map<Seq<char>, Table>, first: Seq<Edit>, next: Seq<Edit>)
    ensures
        after_edits(recording, first + next) == after_edits(after_edits(recording, first), next),
    decreases next.len(),
{
    if next.len() == 0 {
        assert(first + next =~= first);
    } else {
        lemma_edits_join(recording, first, next.drop_last());
        assert((first + next).drop_last() =~= first + next.drop_last());
        assert((first + next).last() == next.last());
    }
}

/// A stream that is not among those that the changes keep to keeps its rows, and is there afterwards
/// where it was there before.
pub proof fn lemma_other_streams_keep_their_rows(
    recording: Map<Seq<char>, Table>,
    edits: Seq<Edit>,
    names: Seq<Seq<char>>,
    name: Seq<char>,
)
    requires
        is_confined(edits, names),
        !names.contains(name),
    ensures
        after_edits(recording, edits).contains_key(name) == recording.contains_key(name),
        after_edits(recording, edits)[name] == recording[name],
    decreases edits.len(),
{
    if edits.len() > 0 {
        let rest = edits.drop_last();
        assert forall|i: int| 0 <= i < rest.len() implies names.contains(
            #[trigger] edited(rest[i]),
        ) by {
            assert(rest[i] == edits[i]);
            assert(names.contains(edited(edits[i])));
        }
        lemma_other_streams_keep_their_rows(recording, rest, names, name);
        assert(names.contains(edited(edits[edits.len() - 1])));
    }
}

/// The listing grows by the streams that are made anew, and loses none.
pub proof fn lemma_listing_after_edits(
    recording: Map<Seq<char>, Table>,
    edits: Seq<Edit>,
    name: Seq<char>,
)
    ensures
        after_edits(recording, edits).contains_key(name) <==> recording.contains_key(name)
            || is_replaced(edits, name),
    decreases edits.len(),
{
    if edits.len() > 0 {
        let rest = edits.drop_last();
        let last = edits.last();
        lemma_listing_after_edits(recording, rest, name);
        if is_replaced(rest, name) {
            let i = choose|i: int| 0 <= i < rest.len() && #[trigger] replaces(rest[i], name);
            assert(replaces(edits[i], name));
        }
        if is_replaced(edits, name) {
            let i = choose|i: int| 0 <= i < edits.len() && #[trigger] replaces(edits[i], name);
            if i < rest.len() {
                assert(replaces(rest[i], name));
            }
        }
        if replaces(last, name) {
            assert(replaces(edits[edits.len() - 1], name));
        }
    }
}

/// Where streams are made anew before rows are appended, what is left of what was there before is
/// what the changes do not touch.
proof fn lemma_same_after_starting_over(
    one: Map<Seq<char>, Table>,
    other: Map<Seq<char>, Table>,
    edits: Seq<Edit>,
    name: Seq<char>,
)
    requires
        starts_over(edits),
        is_replaced(edits, name),
    ensures
        after_edits(one, edits).contains_key(name),
        after_edits(other, edits).contains_key(name),
        after_edits(one, edits)[name] == after_edits(other, edits)[name],
    decreases edits.len(),
{
    let rest = edits.drop_last();
    let last = edits.last();
    assert(starts_over(rest)) by {
        assert forall|n: int| 0 <= n < rest.len() implies (#[trigger] rest[n]) is Replaced
            || is_replaced(rest.take(n), edited(rest[n])) by {
            assert(rest[n] == edits[n]);
            assert(edits.take(n) =~= rest.take(n));
        }
    }
    if replaces(last, name) {
    } else {
        let i = choose|i: int| 0 <= i < edits.len() && #[trigger] replaces(edits[i], name);
        assert(replaces(rest[i], name));
        lemma_same_after_starting_over(one, other, rest, name);
        if last is Appended {
            let to = edited(last);
            assert(edits[edits.len() - 1] is Appended);
            assert(edits.take(edits.len() - 1) =~= rest);
            assert(is_replaced(rest, to));
            lemma_same_after_starting_over(one, other, rest, to);
        }
    }
}

/// Made a second time, changes that start over leave the recording as they left it the first time.
pub proof fn lemma_starting_over_twice(recording: Map<Seq<char>, Table>, edits: Seq<Edit>)
    requires
        starts_over(edits),
    ensures
        after_edits(after_edits(recording, edits), edits) == after_edits(recording, edits),
{
    let once = after_edits(recording, edits);
    let twice = after_edits(once, edits);
    let all = edits.map_values(|edit: Edit| edited(edit));
    assert forall|name: Seq<char>|
        #![trigger twice.dom().contains(name)]
        #![trigger once.dom().contains(name)]
        #![trigger twice[name]]
        twice.contains_key(name) == once.contains_key(name) && twice[name] == once[name] by {
        lemma_listing_after_edits(recording, edits, name);
        lemma_listing_after_edits(once, edits, name);
        if is_replaced(edits, name) {
            lemma_same_after_starting_over(recording, once, edits, name);
        } else {
            assert(is_confined(edits, all)) by {
                assert forall|i: int| 0 <= i < edits.len() implies all.contains(
                    #[trigger] edited(edits[i]),
                ) by {
                    assert(all[i] == edited(edits[i]));
                }
            }
            if all.contains(name) {
                let i = choose|i: int| 0 <= i < all.len() && all[i] == name;
                assert(edited(edits[i]) == name);
                if edits[i] is Appended {
                    let j = choose|j: int|
                        0 <= j < edits.take(i).len() && #[trigger] replaces(
                            edits.take(i)[j],
                            name,
                        );
                    assert(replaces(edits[j], name));
                } else {
                    assert(replaces(edits[i], name));
                }
            }
            lemma_other_streams_keep_their_rows(once, edits, all, name);
        }
    }
    assert(twice =~= once);
}

/// A stream that is written holds the rows that were written, whatever it held before, and all
/// others are as they were.
pub proof fn lemma_stream_is_written(
    recording: Map<Seq<char>, Table>,
    stream: Seq<char>,
    module: Seq<char>,
    rows: Seq<Entry>,
)
    ensures
        after_edits(recording, stream_edits(stream, module, rows)) == recording.insert(
            stream,
            Table { module, rows },
        ),
        starts_over(stream_edits(stream, module, rows)),
        is_confined(stream_edits(stream, module, rows), seq![stream]),
        is_replaced(stream_edits(stream, module, rows), stream),
{
    let edits = stream_edits(stream, module, rows);
    let first = seq![Edit::Replaced { stream, module }];
    let empty = recording.insert(stream, Table { module, rows: Seq::empty() });
    assert(first.drop_last() =~= Seq::empty());
    assert(after_edits(recording, first.drop_last()) == recording);
    assert(after_edits(recording, first) == empty);
    lemma_edits_join(recording, first, appended(stream, rows));
    lemma_rows_are_appended(empty, stream, rows);
    assert(Seq::<Entry>::empty() + rows =~= rows);
    assert(after_edits(recording, edits) =~= recording.insert(stream, Table { module, rows }));
    assert(replaces(edits[0], stream));
    assert forall|n: int| 0 <= n < edits.len() implies (#[trigger] edits[n]) is Replaced
        || is_replaced(edits.take(n), edited(edits[n])) by {
        if n > 0 {
            assert(edits[n] == appended(stream, rows)[n - 1]);
            assert(replaces(edits.take(n)[0], stream));
        }
    }
    assert forall|i: int| 0 <= i < edits.len() implies seq![stream].contains(
        #[trigger] edited(edits[i]),
    ) by {
        assert(seq![stream][0] == stream);
        if i > 0 {
            assert(edits[i] == appended(stream, rows)[i - 1]);
        }
    }
}

/// Appended rows stand behind those of the stream, and all other streams are as they were.
pub proof fn lemma_rows_are_appended(
    recording: Map<Seq<char>, Table>,
    stream: Seq<char>,
    rows: Seq<Entry>,
)
    requires
        recording.contains_key(stream),
    ensures
        after_edits(recording, appended(stream, rows)) == recording.insert(
            stream,
            Table {
                module: recording[stream].module,
                rows: recording[stream].rows + rows,
            },
        ),
    decreases rows.len(),
{
    let edits = appended(stream, rows);
    let table = recording[stream];
    if rows.len() == 0 {
        assert(table.rows + rows =~= table.rows);
        assert(recording.insert(stream, table) =~= recording);
    } else {
        let rest = rows.drop_last();
        lemma_rows_are_appended(recording, stream, rest);
        assert(edits.drop_last() =~= appended(stream, rest));
        assert((table.rows + rest).push(rows.last()) =~= table.rows + rows);
        assert(after_edits(recording, edits) =~= recording.insert(
            stream,
            Table { module: table.module, rows: table.rows + rows },
        ));
    }
}

// ---- the writer ----

/// The streams that were made anew, with the changes that were handed out.
struct Ledger {
    begun: Vec<String>,
    edits: Ghost<Seq<Edit>>,
}

/// Hands out the changes of some streams, and of no others. Rows are appended to a stream only
/// once it was made anew.
pub struct Writer {
    derived: Vec<String>,
    ledger: Ledger,
}

proof fn lemma_replaced_more(edits: Seq<Edit>, edit: Edit, name: Seq<char>)
    ensures
        is_replaced(edits.push(edit), name) <==> is_replaced(edits, name) || replaces(edit, name),
{
    let all = edits.push(edit);
    if is_replaced(edits, name) {
        let i = choose|i: int| 0 <= i < edits.len() && #[trigger] replaces(edits[i], name);
        assert(replaces(all[i], name));
    }
    if replaces(edit, name) {
        assert(replaces(all[edits.len() as int], name));
    }
    if is_replaced(all, name) {
        let i = choose|i: int| 0 <= i < all.len() && #[trigger] replaces(all[i], name);
        if i < edits.len() {
            assert(replaces(edits[i], name));
        }
    }
}

proof fn lemma_confined_more(edits: Seq<Edit>, edit: Edit, names: Seq<Seq<char>>)
    requires
        is_confined(edits, names),
        names.contains(edited(edit)),
        starts_over(edits),
        edit is Replaced || is_replaced(edits, edited(edit)),
    ensures
        is_confined(edits.push(edit), names),
        starts_over(edits.push(edit)),
{
    let all = edits.push(edit);
    assert forall|i: int| 0 <= i < all.len() implies names.contains(#[trigger] edited(all[i])) by {
        if i < edits.len() {
            assert(names.contains(edited(edits[i])));
        }
    }
    assert forall|n: int| 0 <= n < all.len() implies (#[trigger] all[n]) is Replaced || is_replaced(
        all.take(n),
        edited(all[n]),
    ) by {
        if n < edits.len() {
            assert(all[n] == edits[n]);
            assert(all.take(n) =~= edits.take(n));
        } else {
            assert(all.take(n) =~= edits);
        }
    }
}

/// The ledger tells which streams were made anew.
spec fn tells_begun(ledger: Ledger) -> bool {
    forall|name: Seq<char>|
        #![trigger is_replaced(ledger.edits@, name)]
        is_replaced(ledger.edits@, name) <==> texts(ledger.begun@).contains(name)
}

impl Writer {
    #[verifier::type_invariant]
    spec fn keeps_to_its_streams(self) -> bool {
        &&& is_confined(self.ledger.edits@, texts(self.derived@))
        &&& starts_over(self.ledger.edits@)
        &&& tells_begun(self.ledger)
    }

    /// The streams that it may change.
    pub closed spec fn streams(&self) -> Seq<Seq<char>> {
        texts(self.derived@)
    }

    /// The changes that it has handed out.
    pub closed spec fn edits(&self) -> Seq<Edit> {
        self.ledger.edits@
    }

    /// A writer of these streams.
    pub fn new(derived: Vec<String>) -> (writer: Writer)
        ensures
            writer.streams() == texts(derived@),
            writer.edits() == Seq::<Edit>::empty(),
    {
        let ledger = Ledger { begun: Vec::new(), edits: Ghost(Seq::empty()) };
        Writer { derived, ledger }
    }

    /// The change that makes the stream anew; none for a stream that is not the writer's.
    pub fn replace(&mut self, stream: &str, module: &str) -> (r: Option<Change>)
        ensures
            final(self).streams() == old(self).streams(),
            r is Some <==> old(self).streams().contains(stream@),
            match r {
                Some(change) => edit_of(change) == (Edit::Replaced {
                    stream: stream@,
                    module: module@,
                }) && final(self).edits() == old(self).edits().push(edit_of(change)),
                None => final(self).edits() == old(self).edits(),
            },
            is_confined(final(self).edits(), final(self).streams()),
            starts_over(final(self).edits()),
    {
        proof {
            use_type_invariant(&*self);
        }
        if !has_stream(&self.derived, stream) {
            return None;
        }
        let ghost edit = Edit::Replaced { stream: stream@, module: module@ };
        let mut ledger = Ledger { begun: Vec::new(), edits: Ghost(Seq::empty()) };
        std::mem::swap(&mut self.ledger, &mut ledger);
        let ghost edits = ledger.edits@.push(edit);
        let ghost names = texts(ledger.begun@);
        let mut begun = ledger.begun;
        begun.push(stream.to_owned());
        let next = Ledger { begun, edits: Ghost(edits) };
        proof {
            lemma_confined_more(ledger.edits@, edit, texts(self.derived@));
            assert(texts(next.begun@) =~= names.push(stream@));
            assert forall|name: Seq<char>| #[trigger] is_replaced(edits, name) <==> texts(
                next.begun@,
            ).contains(name) by {
                lemma_replaced_more(ledger.edits@, edit, name);
                lemma_contains_more(names, stream@, name);
            }
        }
        self.ledger = next;
        Some(Change::Replace { stream: stream.to_owned(), module: module.to_owned() })
    }

    /// The change that appends a row to a stream; none where the stream was not made anew.
    pub fn append(&mut self, stream: &str, row: RawRow) -> (r: Option<Change>)
        ensures
            final(self).streams() == old(self).streams(),
            r is Some <==> is_replaced(old(self).edits(), stream@),
            match r {
                Some(change) => edit_of(change) == (Edit::Appended {
                    stream: stream@,
                    row: entry_of(row),
                }) && final(self).edits() == old(self).edits().push(edit_of(change)),
                None => final(self).edits() == old(self).edits(),
            },
            is_confined(final(self).edits(), final(self).streams()),
            starts_over(final(self).edits()),
    {
        proof {
            use_type_invariant(&*self);
        }
        if !has_stream(&self.ledger.begun, stream) {
            return None;
        }
        let ghost edit = Edit::Appended { stream: stream@, row: entry_of(row) };
        let mut ledger = Ledger { begun: Vec::new(), edits: Ghost(Seq::empty()) };
        std::mem::swap(&mut self.ledger, &mut ledger);
        let ghost edits = ledger.edits@.push(edit);
        let ghost before = ledger.edits@;
        let next = Ledger { begun: ledger.begun, edits: Ghost(edits) };
        proof {
            assert(is_replaced(before, stream@));
            let i = choose|i: int|
                0 <= i < before.len() && #[trigger] replaces(before[i], stream@);
            assert(texts(self.derived@).contains(edited(before[i])));
            lemma_confined_more(before, edit, texts(self.derived@));
            assert forall|name: Seq<char>| #[trigger] is_replaced(edits, name) <==> texts(
                next.begun@,
            ).contains(name) by {
                lemma_replaced_more(before, edit, name);
                assert(is_replaced(before, name) <==> texts(next.begun@).contains(name));
            }
        }
        self.ledger = next;
        Some(Change::Append { stream: stream.to_owned(), row })
    }

    /// Whether all of these streams were made anew.
    pub fn has_begun(&self, names: &[String]) -> (r: bool)
        ensures
            r == are_replaced(self.edits(), texts(names@)),
    {
        proof {
            use_type_invariant(self);
        }
        let ghost all = texts(names@);
        let mut n: usize = 0;
        while n < names.len()
            invariant
                n <= names@.len(),
                all == texts(names@),
                tells_begun(self.ledger),
                forall|i: int| 0 <= i < n ==> is_replaced(self.edits(), #[trigger] all[i]),
            decreases names.len() - n,
        {
            if !has_stream(&self.ledger.begun, names[n].as_str()) {
                assert(!is_replaced(self.edits(), all[n as int]));
                return false;
            }
            assert(is_replaced(self.edits(), all[n as int]));
            n = n + 1;
        }
        true
    }
}

proof fn lemma_contains_more(names: Seq<Seq<char>>, more: Seq<char>, name: Seq<char>)
    ensures
        names.push(more).contains(name) <==> names.contains(name) || name == more,
{
    if names.contains(name) {
        let i = choose|i: int| 0 <= i < names.len() && names[i] == name;
        assert(names.push(more)[i] == name);
    }
    assert(names.push(more)[names.len() as int] == more);
}

} // verus!
