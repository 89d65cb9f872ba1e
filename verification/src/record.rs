//! Length-framed lists of records.

use vstd::prelude::*;
use vstd::std_specs::cmp::PartialEqSpec;

use crate::bytes;
use crate::error::SaveError;
use crate::frame;
use crate::text;

verus! {

/// The mathematical side of a record of a save file: its bytes and how they are read.
pub trait RecordView: Sized {
    /// What a record of this kind is called in error texts.
    spec fn kind() -> Seq<char>;

    /// The bytes that a record is written as.
    spec fn record_bytes(self) -> Seq<u8>;

    /// The record at the start of `data`, and how many bytes it takes.
    spec fn parse_record(data: Seq<u8>) -> Result<(Self, nat), crate::error::SaveErrorView>;

    /// Whether the record is read back as it was written.
    spec fn storable(self) -> bool;

    /// A storable record is read back as it was written, whatever follows it.
    proof fn lemma_record_is_read_back(self, rest: Seq<u8>)
        requires
            self.storable(),
        ensures
            Self::parse_record(self.record_bytes() + rest) == Ok::<_, crate::error::SaveErrorView>(
                (self, self.record_bytes().len()),
            ),
    ;

    /// A record that was read is storable, and is written as the bytes that it was read from.
    proof fn lemma_read_record_is_written_back(data: Seq<u8>)
        ensures
            Self::parse_record(data) matches Ok((record, taken)) ==> {
                &&& taken <= data.len()
                &&& record.record_bytes() == data.take(taken as int)
                &&& record.storable()
            },
    ;
}

/// The executable side of a record of a save file.
pub trait Record: View + Sized where <Self as View>::V: RecordView {
    /// What a record of this kind is called in error texts.
    fn kind_name() -> (name: &'static str)
        ensures
            name@ == <Self as View>::V::kind(),
    ;

    /// Encodes the record.
    fn encode_record(&self) -> (encoded: Vec<u8>)
        ensures
            encoded@ == self@.record_bytes(),
    ;

    /// Decodes the record at the start of `data`; also returns how many bytes it takes.
    fn decode_record(data: &[u8]) -> (result: Result<(Self, usize), SaveError>)
        ensures
            crate::error::outcome(result) == <Self as View>::V::parse_record(data@),
    ;
}

/// What the items of a list stand for.
pub open spec fn views<T: View>(items: Seq<T>) -> Seq<T::V> {
    Seq::new(items.len(), |i: int| items[i]@)
}

/// Whether two lists are equally long and equal item by item.
pub fn lists_equal<T: PartialEq>(a: &Vec<T>, b: &Vec<T>) -> (equal: bool)
    requires
        T::obeys_eq_spec(),
    ensures
        equal == (a@.len() == b@.len() && forall|i: int|
            0 <= i < a@.len() ==> (#[trigger] a@[i]).eq_spec(&b@[i])),
{
    if a.len() != b.len() {
        return false;
    }
    let mut i: usize = 0;
    while i < a.len()
        invariant
            T::obeys_eq_spec(),
            i <= a.len(),
            a.len() == b.len(),
            forall|j: int| 0 <= j < i ==> (#[trigger] a@[j]).eq_spec(&b@[j]),
        decreases a.len() - i,
    {
        if a[i] != b[i] {
            return false;
        }
        i = i + 1;
    }
    true
}

/// Records, each in a frame of its own.
pub open spec fn records_bytes<R: RecordView>(records: Seq<R>) -> Seq<u8> {
    bytes::concat(Seq::new(records.len(), |i: int| frame::frame_bytes(records[i].record_bytes())))
}

/// A list of records: their number in four bytes, then the framed records.
pub open spec fn list_bytes<R: RecordView>(records: Seq<R>) -> Seq<u8> {
    bytes::le_bytes(records.len(), 4) + records_bytes(records)
}

/// The text of the error for a record that does not fill its frame.
pub open spec fn size_mismatch(kind: Seq<char>, taken: nat, declared: nat) -> Seq<char> {
    kind + " decoded size mismatch: consumed "@ + text::decimal(taken) + " vs declared "@
        + text::decimal(declared)
}

/// The framed record at the start of `data`, and how many bytes it takes with its frame.
pub open spec fn parse_framed<R: RecordView>(data: Seq<u8>) -> Result<
    (R, nat),
    crate::error::SaveErrorView,
> {
    match frame::parse_frame(data) {
        None => Err(crate::error::SaveErrorView::UnexpectedEof),
        Some(content) => match R::parse_record(content) {
            Err(error) => Err(error),
            Ok((record, taken)) => if taken == content.len() {
                Ok((record, 4 + content.len()))
            } else {
                Err(
                    crate::error::SaveErrorView::CorruptedData(
                        size_mismatch(R::kind(), taken, content.len()),
                    ),
                )
            },
        },
    }
}

/// The `count` framed records at the start of `data`, and how many bytes they take. The first
/// record that cannot be read decides the error.
pub open spec fn parse_records<R: RecordView>(data: Seq<u8>, count: nat) -> Result<
    (Seq<R>, nat),
    crate::error::SaveErrorView,
>
    decreases count,
{
    if count == 0 {
        Ok((Seq::empty(), 0))
    } else {
        match parse_framed::<R>(data) {
            Err(error) => Err(error),
            Ok((first, taken)) => match parse_records::<R>(
                data.skip(taken as int),
                (count - 1) as nat,
            ) {
                Err(error) => Err(error),
                Ok((others, more)) => Ok((seq![first] + others, taken + more)),
            },
        }
    }
}

/// The list of records at the start of `data`, and how many bytes it takes.
pub open spec fn parse_list<R: RecordView>(data: Seq<u8>) -> Result<
    (Seq<R>, nat),
    crate::error::SaveErrorView,
> {
    if data.len() < 4 {
        Err(crate::error::SaveErrorView::UnexpectedEof)
    } else {
        match parse_records::<R>(data.skip(4), bytes::u32_at(data, 0) as nat) {
            Ok((records, taken)) => Ok((records, 4 + taken)),
            Err(error) => Err(error),
        }
    }
}

/// Appends a list of records.
pub fn push_list<T: Record>(out: &mut Vec<u8>, items: &Vec<T>) where <T as View>::V: RecordView
    ensures
        final(out)@ == old(out)@ + list_bytes(views(items@)),
{
    let ghost before = out@;
    let ghost records = views(items@);
    bytes::push_le(out, items.len() as u64, 4);
    let ghost head = out@;
    let mut i: usize = 0;
    assert(head =~= head + records_bytes(records.take(0)));
    while i < items.len()
        invariant
            i <= items.len(),
            records == views(items@),
            out@ == head + records_bytes(records.take(i as int)),
        decreases items.len() - i,
    {
        let encoded = items[i].encode_record();
        frame::push_frame(out, encoded.as_slice());
        proof {
            lemma_last_record(records.take(i + 1));
            assert(records.take(i + 1).drop_last() =~= records.take(i as int));
            bytes::lemma_regroup(
                head,
                records_bytes(records.take(i as int)),
                frame::frame_bytes(encoded@),
            );
        }
        i = i + 1;
    }
    assert(records.take(i as int) =~= records);
    assert(out@ =~= before + list_bytes(records));
}

/// The text of the error for a record that does not fill its frame.
fn size_mismatch_text(kind: &str, taken: usize, declared: usize) -> (message: String)
    ensures
        message@ == size_mismatch(kind@, taken as nat, declared as nat),
{
    let mut message = kind.to_string();
    message.append(" decoded size mismatch: consumed ");
    text::push_decimal(&mut message, taken);
    message.append(" vs declared ");
    text::push_decimal(&mut message, declared);
    message
}

/// Reads the framed record at offset `at`; also returns how many bytes it takes with its frame.
fn read_framed<T: Record>(data: &[u8], at: usize) -> (result: Result<(T, usize), SaveError>) where
    <T as View>::V: RecordView,

    requires
        at <= data.len(),
    ensures
        crate::error::outcome(result) == parse_framed::<<T as View>::V>(data@.skip(at as int)),
        result matches Ok((_, taken)) ==> at + taken <= data.len(),
{
    match frame::read_frame(data, at) {
        None => Err(SaveError::UnexpectedEof),
        Some(content) => match T::decode_record(content) {
            Err(error) => Err(error),
            Ok((item, taken)) => if taken == content.len() {
                Ok((item, 4 + taken))
            } else {
                Err(
                    SaveError::CorruptedData(
                        size_mismatch_text(T::kind_name(), taken, content.len()),
                    ),
                )
            },
        },
    }
}

/// The outcome of decoding a list of which the number of bytes taken is reported too.
pub open spec fn list_outcome<T: View>(result: Result<(Vec<T>, usize), SaveError>) -> Result<
    (Seq<T::V>, nat),
    crate::error::SaveErrorView,
> {
    match result {
        Ok((items, taken)) => Ok((views(items@), taken as nat)),
        Err(error) => Err(error@),
    }
}

/// Reads the `count` framed records at offset `at`; also returns how many bytes they take.
fn read_records<T: Record>(data: &[u8], at: usize, count: u32) -> (result: Result<
    (Vec<T>, usize),
    SaveError,
>) where <T as View>::V: RecordView
    requires
        at <= data.len(),
    ensures
        list_outcome(result) == parse_records::<<T as View>::V>(
            data@.skip(at as int),
            count as nat,
        ),
        result matches Ok((_, taken)) ==> at + taken <= data.len(),
{
    let ghost records = parse_records::<<T as View>::V>(data@.skip(at as int), count as nat);
    let mut items: Vec<T> = Vec::new();
    let mut offset: usize = at;
    let mut i: u32 = 0;
    proof {
        if let Ok((others, _)) = records {
            assert(views(items@) + others =~= others);
        }
    }
    while i < count
        invariant
            i <= count,
            at <= offset <= data.len(),
            records == parse_records::<<T as View>::V>(data@.skip(at as int), count as nat),
            match parse_records::<<T as View>::V>(data@.skip(offset as int), (count - i) as nat) {
                Ok((others, more)) => records == Ok::<_, crate::error::SaveErrorView>(
                    (views(items@) + others, (offset - at + more) as nat),
                ),
                Err(error) => records == Err::<(Seq<<T as View>::V>, nat), _>(error),
            },
        decreases count - i,
    {
        let ghost rest = data@.skip(offset as int);
        let ghost before = views(items@);
        match read_framed::<T>(data, offset) {
            Ok((item, taken)) => {
                let ghost first = item@;
                items.push(item);
                proof {
                    assert(rest.skip(taken as int) =~= data@.skip(offset + taken));
                    assert(views(items@) =~= before.push(first));
                    if let Ok((others, _)) = parse_records::<<T as View>::V>(
                        rest.skip(taken as int),
                        (count - i - 1) as nat,
                    ) {
                        assert(before + (seq![first] + others) =~= views(items@) + others);
                    }
                }
                offset = offset + taken;
            },
            Err(error) => return Err(error),
        }
        i = i + 1;
    }
    assert(views(items@) + Seq::<<T as View>::V>::empty() =~= views(items@));
    Ok((items, offset - at))
}

/// Reads the list of records at offset `at`; also returns how many bytes it takes.
pub fn read_list<T: Record>(data: &[u8], at: usize) -> (result: Result<
    (Vec<T>, usize),
    SaveError,
>) where <T as View>::V: RecordView
    requires
        at <= data.len(),
    ensures
        list_outcome(result) == parse_list::<<T as View>::V>(data@.skip(at as int)),
        result matches Ok((_, taken)) ==> at + taken <= data.len(),
{
    if data.len() - at < 4 {
        return Err(SaveError::UnexpectedEof);
    }
    proof {
        let rest = data@.skip(at as int);
        assert(rest.subrange(0, 4) =~= data@.subrange(at as int, at + 4));
        assert(rest.skip(4) =~= data@.skip(at + 4));
    }
    match read_records::<T>(data, at + 4, bytes::read_u32(data, at)) {
        Ok((items, taken)) => Ok((items, 4 + taken)),
        Err(error) => Err(error),
    }
}

/// Whether every record of a list is read back as it was written, from a frame whose length fits
/// in four bytes.
pub open spec fn records_storable<R: RecordView>(records: Seq<R>) -> bool {
    forall|i: int|
        0 <= i < records.len() ==> (#[trigger] records[i]).storable()
            && records[i].record_bytes().len() <= u32::MAX
}

/// Whether a list of records is read back as it was written: its records are, and their number
/// fits in four bytes.
pub open spec fn list_storable<R: RecordView>(records: Seq<R>) -> bool {
    records.len() <= u32::MAX && records_storable(records)
}

/// The records after the first are as storable as all.
proof fn lemma_others_storable<R: RecordView>(records: Seq<R>)
    requires
        records_storable(records),
        records.len() > 0,
    ensures
        records_storable(records.drop_first()),
{
    let others = records.drop_first();
    assert forall|i: int| 0 <= i < others.len() implies (#[trigger] others[i]).storable()
        && others[i].record_bytes().len() <= u32::MAX by {
        assert(others[i] == records[i + 1]);
    }
}

/// The bytes of records, split off at the front.
proof fn lemma_first_record<R: RecordView>(first: R, others: Seq<R>)
    ensures
        records_bytes(seq![first] + others) == frame::frame_bytes(first.record_bytes())
            + records_bytes(others),
{
    let records = seq![first] + others;
    let parts = Seq::new(records.len(), |i: int| frame::frame_bytes(records[i].record_bytes()));
    bytes::lemma_concat_first(parts);
    assert(parts.drop_first() =~= Seq::new(
        others.len(),
        |i: int| frame::frame_bytes(others[i].record_bytes()),
    ));
}

/// The bytes of records, split off at the back.
proof fn lemma_last_record<R: RecordView>(records: Seq<R>)
    requires
        records.len() > 0,
    ensures
        records_bytes(records) == records_bytes(records.drop_last()) + frame::frame_bytes(
            records.last().record_bytes(),
        ),
{
    let init = records.drop_last();
    let parts = Seq::new(records.len(), |i: int| frame::frame_bytes(records[i].record_bytes()));
    assert(parts.drop_last() =~= Seq::new(
        init.len(),
        |i: int| frame::frame_bytes(init[i].record_bytes()),
    ));
}

proof fn lemma_records_are_read_back<R: RecordView>(records: Seq<R>, rest: Seq<u8>)
    requires
        records_storable(records),
    ensures
        parse_records::<R>(records_bytes(records) + rest, records.len()) == Ok::<
            _,
            crate::error::SaveErrorView,
        >((records, records_bytes(records).len())),
    decreases records.len(),
{
    if records.len() > 0 {
        let first = records[0];
        let others = records.drop_first();
        let content = first.record_bytes();
        let after = records_bytes(others) + rest;
        let data = records_bytes(records) + rest;
        assert(records =~= seq![first] + others);
        lemma_first_record(first, others);
        assert(data =~= frame::frame_bytes(content) + after);
        frame::lemma_frame_is_read_back(content, after);
        assert(content + Seq::<u8>::empty() =~= content);
        first.lemma_record_is_read_back(Seq::empty());
        assert(data.skip(4 + content.len() as int) =~= after);
        lemma_others_storable(records);
        lemma_records_are_read_back(others, rest);
    } else {
        assert(records =~= Seq::<R>::empty());
    }
}

proof fn lemma_read_records_are_written_back<R: RecordView>(data: Seq<u8>, count: nat)
    ensures
        parse_records::<R>(data, count) matches Ok((records, taken)) ==> {
            &&& taken <= data.len()
            &&& records.len() == count
            &&& records_bytes(records) == data.take(taken as int)
            &&& records_storable(records)
        },
    decreases count,
{
    if let Ok((records, taken)) = parse_records::<R>(data, count) {
        if count > 0 {
            let (first, size) = parse_framed::<R>(data)->Ok_0;
            let rest = data.skip(size as int);
            let (others, more) = parse_records::<R>(rest, (count - 1) as nat)->Ok_0;
            let content = frame::parse_frame(data)->0;
            frame::lemma_read_frame_is_written_back(data);
            R::lemma_read_record_is_written_back(content);
            assert(content.take(content.len() as int) =~= content);
            lemma_read_records_are_written_back::<R>(rest, (count - 1) as nat);
            lemma_first_record(first, others);
            assert(data.take(size as int) + rest.take(more as int) =~= data.take(taken as int));
            assert forall|i: int| 0 <= i < records.len() implies (#[trigger] records[i]).storable()
                && records[i].record_bytes().len() <= u32::MAX by {
                if i > 0 {
                    assert(records[i] == others[i - 1]);
                }
            }
        } else {
            assert(data.take(0) =~= Seq::<u8>::empty());
        }
    }
}

/// A storable list is read back as it was written, whatever follows it.
pub proof fn lemma_list_is_read_back<R: RecordView>(records: Seq<R>, rest: Seq<u8>)
    requires
        list_storable(records),
    ensures
        parse_list::<R>(list_bytes(records) + rest) == Ok::<_, crate::error::SaveErrorView>(
            (records, list_bytes(records).len()),
        ),
{
    broadcast use bytes::lemma_le_bytes_len;

    let data = list_bytes(records) + rest;
    bytes::lemma_u32_stored(data, 0, records.len() as u32);
    assert(data.skip(4) =~= records_bytes(records) + rest);
    lemma_records_are_read_back(records, rest);
}

/// Records that were cut short end early.
proof fn lemma_cut_records<R: RecordView>(records: Seq<R>, len: int)
    requires
        records_storable(records),
        0 <= len < records_bytes(records).len(),
    ensures
        parse_records::<R>(records_bytes(records).take(len), records.len()) == Err::<
            (Seq<R>, nat),
            _,
        >(crate::error::SaveErrorView::UnexpectedEof),
    decreases records.len(),
{
    let first = records[0];
    let others = records.drop_first();
    let content = first.record_bytes();
    let head = frame::frame_bytes(content);
    let after = records_bytes(others);
    assert(records =~= seq![first] + others);
    lemma_first_record(first, others);
    bytes::lemma_cut(head, after, len);
    if len < head.len() {
        frame::lemma_cut_frame(content, len);
    } else {
        let left = after.take(len - head.len());
        frame::lemma_frame_is_read_back(content, left);
        assert(content + Seq::<u8>::empty() =~= content);
        first.lemma_record_is_read_back(Seq::empty());
        bytes::lemma_skip_front(head, left);
        lemma_others_storable(records);
        lemma_cut_records(others, len - head.len());
    }
}

/// A list that was cut short ends early.
pub proof fn lemma_cut_list<R: RecordView>(records: Seq<R>, len: int)
    requires
        list_storable(records),
        0 <= len < list_bytes(records).len(),
    ensures
        parse_list::<R>(list_bytes(records).take(len)) == Err::<(Seq<R>, nat), _>(
            crate::error::SaveErrorView::UnexpectedEof,
        ),
{
    broadcast use bytes::lemma_le_bytes_len;

    if len >= 4 {
        let cut = list_bytes(records).take(len);
        assert(cut.subrange(0, 4) =~= bytes::le_bytes(records.len(), 4));
        bytes::lemma_u32_stored(cut, 0, records.len() as u32);
        assert(cut.skip(4) =~= records_bytes(records).take(len - 4));
        lemma_cut_records(records, len - 4);
    }
}

/// A list that was read is storable, and is written as the bytes that it was read from.
pub proof fn lemma_read_list_is_written_back<R: RecordView>(data: Seq<u8>)
    ensures
        parse_list::<R>(data) matches Ok((records, taken)) ==> {
            &&& 4 <= taken <= data.len()
            &&& list_bytes(records) == data.take(taken as int)
            &&& list_storable(records)
        },
{
    if let Ok((records, taken)) = parse_list::<R>(data) {
        bytes::lemma_u32_loaded(data, 0);
        lemma_read_records_are_written_back::<R>(data.skip(4), bytes::u32_at(data, 0) as nat);
        assert(list_bytes(records) =~= data.take(taken as int));
    }
}

/// The view of a list holds the views of its items.
pub proof fn law_views<T: View>(items: Seq<T>, i: int)
    ensures
        views(items).len() == items.len(),
        0 <= i < items.len() ==> views(items)[i] == items[i]@,
{
}

/// The outcome of decoding a list is what was decoded, or the view of the error.
pub proof fn law_list_outcome_is_the_result<T: View>(result: Result<(Vec<T>, usize), SaveError>)
    ensures
        result matches Ok((items, taken)) ==> (list_outcome(result) matches Ok((seen, size)) && seen
            == views(items@) && size == taken),
        result matches Err(error) ==> (list_outcome(result) matches Err(seen) && seen == error@),
{
}

/// A list starts with the four bytes of the number of its records. One more record adds its bytes
/// at the end, behind the four bytes of their number.
pub proof fn law_list_layout<R: RecordView>(records: Seq<R>, record: R)
    ensures
        list_bytes(records).take(4) == bytes::le_bytes(records.len(), 4),
        list_bytes(Seq::<R>::empty()).skip(4) == Seq::<u8>::empty(),
        list_bytes(records.push(record)).skip(4) == list_bytes(records).skip(4) + bytes::le_bytes(
            record.record_bytes().len(),
            4,
        ) + record.record_bytes(),
{
    let more = records.push(record);
    lemma_last_record(more);
    assert(more.drop_last() =~= records);
    lemma_list_parts(records);
    lemma_list_parts(more);
    lemma_list_parts(Seq::<R>::empty());
    bytes::lemma_regroup(
        records_bytes(records),
        bytes::le_bytes(record.record_bytes().len(), 4),
        record.record_bytes(),
    );
}

/// A list is at least as long as the number at its start.
pub proof fn lemma_list_count<R: RecordView>(records: Seq<R>)
    ensures
        list_bytes(records).len() >= 4,
        list_bytes(records).take(4) == bytes::le_bytes(records.len(), 4),
{
    bytes::lemma_le_bytes_len(records.len(), 4);
    lemma_list_parts(records);
}

/// The number at the start of a list, and what follows it.
proof fn lemma_list_parts<R: RecordView>(records: Seq<R>)
    ensures
        list_bytes(records).take(4) == bytes::le_bytes(records.len(), 4),
        list_bytes(records).skip(4) == records_bytes(records),
{
    bytes::lemma_le_bytes_len(records.len(), 4);
    assert(list_bytes(records).take(4) =~= bytes::le_bytes(records.len(), 4));
    assert(list_bytes(records).skip(4) =~= records_bytes(records));
}

/// Records that were read one after the other from the offsets `starts`, and what is left to read.
proof fn lemma_records_in_turn<R: RecordView>(
    data: Seq<u8>,
    count: nat,
    starts: Seq<int>,
    records: Seq<R>,
)
    requires
        starts.len() == records.len() + 1,
        records.len() <= count,
        0 <= starts[0] <= data.len(),
        forall|i: int|
            0 <= i < records.len() ==> {
                &&& #[trigger] frame::parse_frame(data.skip(starts[i])) matches Some(content)
                &&& R::parse_record(content) == Ok::<_, crate::error::SaveErrorView>(
                    (records[i], content.len()),
                )
                &&& starts[i + 1] == starts[i] + 4 + content.len()
            },
    ensures
        starts[0] <= starts.last() <= data.len(),
        parse_records::<R>(data.skip(starts[0]), count) == (match parse_records::<R>(
            data.skip(starts.last()),
            (count - records.len()) as nat,
        ) {
            Ok((others, more)) => Ok(
                (records + others, (starts.last() - starts[0] + more) as nat),
            ),
            Err(error) => Err(error),
        }),
    decreases records.len(),
{
    let k = records.len() as int;
    if k > 0 {
        let init = records.drop_last();
        let at = starts[k - 1];
        assert(starts.drop_last().last() == at);
        lemma_records_in_turn(data, count, starts.drop_last(), init);
        let content = frame::parse_frame(data.skip(at))->0;
        frame::lemma_read_frame_is_written_back(data.skip(at));
        assert(data.skip(at).skip(4 + content.len() as int) =~= data.skip(starts[k]));
        if let Ok((others, _)) = parse_records::<R>(data.skip(starts[k]), (count - k) as nat) {
            assert(init + (seq![records[k - 1]] + others) =~= records + others);
        }
    } else {
        if let Ok((others, _)) = parse_records::<R>(data.skip(starts[0]), count) {
            assert(records + others =~= others);
        }
    }
}

/// A list is read record by record, each from where the one before it ends. If as many as the list
/// announces can be read and each fills its frame, the list holds exactly these. If fewer can, the
/// first that cannot decides the error: a frame that is not all there ends early, a record that is
/// refused hands on its error, and one that does not fill its frame is corrupted.
pub proof fn law_list_is_read_in_turn<R: RecordView>(
    data: Seq<u8>,
    starts: Seq<int>,
    records: Seq<R>,
)
    requires
        data.len() >= 4,
        starts.len() == records.len() + 1,
        starts[0] == 4,
        records.len() <= data[0] + 0x100 * data[1] + 0x1_0000 * data[2] + 0x100_0000 * data[3],
        forall|i: int|
            0 <= i < records.len() ==> {
                &&& #[trigger] frame::parse_frame(data.skip(starts[i])) matches Some(content)
                &&& R::parse_record(content) == Ok::<_, crate::error::SaveErrorView>(
                    (records[i], content.len()),
                )
                &&& starts[i + 1] == starts[i] + 4 + content.len()
            },
    ensures
        ({
            let count = data[0] + 0x100 * data[1] + 0x1_0000 * data[2] + 0x100_0000 * data[3];
            let next = frame::parse_frame(data.skip(starts.last()));
            &&& records.len() == count ==> parse_list::<R>(data) == Ok::<
                _,
                crate::error::SaveErrorView,
            >((records, starts.last() as nat))
            &&& records.len() < count ==> match next {
                None => parse_list::<R>(data) == Err::<(Seq<R>, nat), _>(
                    crate::error::SaveErrorView::UnexpectedEof,
                ),
                Some(content) => match R::parse_record(content) {
                    Err(error) => parse_list::<R>(data) == Err::<(Seq<R>, nat), _>(error),
                    Ok((_, taken)) => taken != content.len() ==> parse_list::<R>(data) == Err::<
                        (Seq<R>, nat),
                        _,
                    >(
                        crate::error::SaveErrorView::CorruptedData(
                            R::kind() + " decoded size mismatch: consumed "@ + text::decimal(taken)
                                + " vs declared "@ + text::decimal(content.len()),
                        ),
                    ),
                },
            }
        }),
{
    let count = bytes::u32_at(data, 0) as nat;
    bytes::law_u32_at(data, 0);
    lemma_records_in_turn(data, count, starts, records);
    if records.len() == count {
        assert(records + Seq::<R>::empty() =~= records);
    }
}

/// A list that is too short for the number of its records ends early.
pub proof fn law_list_without_count_ends_early<R: RecordView>(data: Seq<u8>)
    requires
        data.len() < 4,
    ensures
        parse_list::<R>(data) == Err::<(Seq<R>, nat), _>(
            crate::error::SaveErrorView::UnexpectedEof,
        ),
{
}

} // verus!
