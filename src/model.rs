//! The task record and its one-line text form.
use vstd::prelude::*;
use chrono::TimeZone;
use crate::escape::{escape, unescape, is_plain_name, lemma_escape_free, lemma_escape_no_newline, lemma_unescape_escape, push_escaped, unescape_chars};
use crate::text::{
    bool_text, chars_of, decimal, free_of, int_text, join, parse_bool, parse_bool_chars, parse_i64,
    parse_i64_chars, parse_u32, parse_u32_chars, push_bool, push_decimal, push_int, split,
    split_chars, string_of, push_str, char_digit, lemma_decimal, lemma_parse_bool,
    lemma_parse_i64, lemma_parse_u32, lemma_split_join, lemma_join_free,
};

verus! {

/// One task.
#[derive(Debug, Clone)]
pub struct Item {
    pub id: u32,
    pub name: String,
    pub completed: bool,
    pub deleted: bool,
    pub created_at: Option<i64>,
    pub completed_at: Option<i64>,
    pub deleted_at: Option<i64>,
}

/// The mathematical value of a task.
pub struct ItemView {
    pub id: u32,
    pub name: Seq<char>,
    pub completed: bool,
    pub deleted: bool,
    pub created_at: Option<i64>,
    pub completed_at: Option<i64>,
    pub deleted_at: Option<i64>,
}

impl View for Item {
    type V = ItemView;

    open spec fn view(&self) -> ItemView {
        ItemView {
            id: self.id,
            name: self.name@,
            completed: self.completed,
            deleted: self.deleted,
            created_at: self.created_at,
            completed_at: self.completed_at,
            deleted_at: self.deleted_at,
        }
    }
}

/// Why a line is not a task record.
#[derive(Debug, Clone, Copy, PartialEq, Eq, Structural)]
pub enum ParseItemError {
    /// The line has this many comma-separated fields instead of seven.
    FieldCount(usize),
    /// The field at this position (counted from zero) does not parse.
    InvalidField(usize),
}

pub open spec fn timestamp_text(t: Option<i64>) -> Seq<char> {
    match t {
        Some(x) => int_text(x as int),
        None => Seq::empty(),
    }
}

/// An optional timestamp: empty text is absent, anything else a signed integer.
pub open spec fn parse_timestamp(s: Seq<char>) -> Option<Option<i64>> {
    if s.len() == 0 {
        Some(None)
    } else {
        match parse_i64(s) {
            Some(x) => Some(Some(x)),
            None => None,
        }
    }
}

/// The seven fields of a record, in order.
pub open spec fn record_fields(v: ItemView) -> Seq<Seq<char>> {
    seq![
        decimal(v.id as nat),
        escape(v.name),
        bool_text(v.completed),
        bool_text(v.deleted),
        timestamp_text(v.created_at),
        timestamp_text(v.completed_at),
        timestamp_text(v.deleted_at),
    ]
}

/// The record line of a task.
pub open spec fn encode(v: ItemView) -> Seq<char> {
    join(record_fields(v), ',')
}

/// The task that a record line holds, or why it holds none.
pub open spec fn decode(s: Seq<char>) -> Result<ItemView, ParseItemError> {
    let f = split(s, ',');
    if f.len() != 7 {
        Err(ParseItemError::FieldCount(f.len() as usize))
    } else if parse_u32(f[0]) is None {
        Err(ParseItemError::InvalidField(0))
    } else if parse_bool(f[2]) is None {
        Err(ParseItemError::InvalidField(2))
    } else if parse_bool(f[3]) is None {
        Err(ParseItemError::InvalidField(3))
    } else if parse_timestamp(f[4]) is None {
        Err(ParseItemError::InvalidField(4))
    } else if parse_timestamp(f[5]) is None {
        Err(ParseItemError::InvalidField(5))
    } else if parse_timestamp(f[6]) is None {
        Err(ParseItemError::InvalidField(6))
    } else {
        Ok(ItemView {
            id: parse_u32(f[0]).unwrap(),
            name: unescape(f[1]),
            completed: parse_bool(f[2]).unwrap(),
            deleted: parse_bool(f[3]).unwrap(),
            created_at: parse_timestamp(f[4]).unwrap(),
            completed_at: parse_timestamp(f[5]).unwrap(),
            deleted_at: parse_timestamp(f[6]).unwrap(),
        })
    }
}

proof fn lemma_timestamp(t: Option<i64>)
    ensures
        parse_timestamp(timestamp_text(t)) == Some(t),
        free_of(timestamp_text(t), ','),
        free_of(timestamp_text(t), '\n'),
{
    match t {
        Some(x) => {
            lemma_parse_i64(x);
            let s = timestamp_text(t);
            if x < 0 {
                lemma_decimal((-x) as nat);
                assert(s.len() > 0);
                assert forall|i: int| 0 <= i < s.len() implies s[i] != ',' && s[i] != '\n' by {
                    if i > 0 {
                        assert(s[i] == decimal((-x) as nat)[i - 1]);
                        assert(char_digit(decimal((-x) as nat)[i - 1]) is Some);
                    }
                }
            } else {
                lemma_decimal(x as nat);
                assert forall|i: int| 0 <= i < s.len() implies s[i] != ',' && s[i] != '\n' by {
                    assert(char_digit(s[i]) is Some);
                }
            }
        },
        None => {},
    }
}

/// The item that a record line was made from, with its name read back
/// through the escaping.
pub open spec fn reread(v: ItemView) -> ItemView {
    ItemView { name: unescape(escape(v.name)), ..v }
}

/// Every record line decodes, to its item with the name passed through
/// escaping and unescaping; every other field comes back unchanged.
pub proof fn lemma_decode_encode(v: ItemView)
    ensures
        decode(encode(v)) == Ok::<ItemView, ParseItemError>(reread(v)),
{
    let f = record_fields(v);
    lemma_decimal(v.id as nat);
    assert forall|i: int| 0 <= i < decimal(v.id as nat).len() implies decimal(v.id as nat)[i] != ',' by {
        assert(char_digit(decimal(v.id as nat)[i]) is Some);
    }
    lemma_escape_free(v.name);
    lemma_timestamp(v.created_at);
    lemma_timestamp(v.completed_at);
    lemma_timestamp(v.deleted_at);
    assert(free_of(bool_text(true), ','));
    assert(free_of(bool_text(false), ','));
    assert forall|i: int| 0 <= i < f.len() implies free_of(#[trigger] f[i], ',') by {}
    lemma_split_join(f, ',');
    lemma_parse_u32(v.id);
    lemma_parse_bool(v.completed);
    lemma_parse_bool(v.deleted);
}

/// Decoding the record line of a task gives the task back, for every task
/// whose name holds none of the sentinel tokens; names may hold commas,
/// newlines and `\n`.
pub proof fn lemma_round_trip(v: ItemView)
    requires
        is_plain_name(v.name),
    ensures
        decode(encode(v)) == Ok::<ItemView, ParseItemError>(v),
{
    lemma_decode_encode(v);
    lemma_unescape_escape(v.name);
}

/// The record line of an item never holds a newline.
pub proof fn lemma_encode_one_line(v: ItemView)
    ensures
        free_of(encode(v), '\n'),
{
    let f = record_fields(v);
    lemma_decimal(v.id as nat);
    assert forall|i: int| 0 <= i < decimal(v.id as nat).len() implies decimal(v.id as nat)[i] != '\n' by {
        assert(char_digit(decimal(v.id as nat)[i]) is Some);
    }
    lemma_escape_no_newline(v.name);
    lemma_timestamp(v.created_at);
    lemma_timestamp(v.completed_at);
    lemma_timestamp(v.deleted_at);
    assert(free_of(bool_text(true), '\n'));
    assert(free_of(bool_text(false), '\n'));
    assert forall|i: int| 0 <= i < f.len() implies free_of(#[trigger] f[i], '\n') by {}
    lemma_join_free(f, ',', '\n');
}

proof fn lemma_join_seven(f: Seq<Seq<char>>)
    requires
        f.len() == 7,
    ensures
        join(f, ',') == f[0] + seq![','] + f[1] + seq![','] + f[2] + seq![','] + f[3] + seq![',']
            + f[4] + seq![','] + f[5] + seq![','] + f[6],
{
    let f6 = f.drop_last();
    let f5 = f6.drop_last();
    let f4 = f5.drop_last();
    let f3 = f4.drop_last();
    let f2 = f3.drop_last();
    let f1 = f2.drop_last();
    assert(join(f1, ',') == f[0]);
    assert(join(f2, ',') == f[0] + seq![','] + f[1]);
    assert(join(f3, ',') == join(f2, ',') + seq![','] + f[2]);
    assert(join(f4, ',') == join(f3, ',') + seq![','] + f[3]);
    assert(join(f5, ',') == join(f4, ',') + seq![','] + f[4]);
    assert(join(f6, ',') == join(f5, ',') + seq![','] + f[5]);
    assert(join(f, ',') == join(f6, ',') + seq![','] + f[6]);
}

/// The timestamp text of a record field: the number, or nothing when absent.
pub fn timestamp_to_raw_string(timestamp: Option<i64>) -> (r: String)
    ensures
        r@ == timestamp_text(timestamp),
{
    let mut out: Vec<char> = Vec::new();
    if let Some(x) = timestamp {
        push_int(&mut out, x);
    }
    assert(out@ =~= timestamp_text(timestamp));
    string_of(&out)
}

fn timestamp_from_chars(s: &Vec<char>) -> (r: Option<Option<i64>>)
    ensures
        r == parse_timestamp(s@),
{
    if s.len() == 0 {
        Some(None)
    } else {
        match parse_i64_chars(s) {
            Some(x) => Some(Some(x)),
            None => None,
        }
    }
}

/// Reads an optional timestamp field: `None` inside when the text is empty,
/// `None` outside when it is no signed 64-bit integer.
pub fn str_to_timestamp(s: &str) -> (r: Option<Option<i64>>)
    ensures
        r == parse_timestamp(s@),
{
    let v = chars_of(s);
    timestamp_from_chars(&v)
}

impl Item {
    pub fn new(
        id: u32,
        name: &str,
        completed: bool,
        deleted: bool,
        created_at: Option<i64>,
        completed_at: Option<i64>,
        deleted_at: Option<i64>,
    ) -> (r: Self)
        ensures
            r@ == (ItemView {
                id,
                name: name@,
                completed,
                deleted,
                created_at,
                completed_at,
                deleted_at,
            }),
    {
        Item {
            id,
            name: name.to_owned(),
            completed,
            deleted,
            created_at,
            completed_at,
            deleted_at,
        }
    }

    pub fn id(&self) -> (r: u32)
        ensures
            r == self@.id,
    {
        self.id
    }

    /// The record line of the item.
    pub fn to_string(&self) -> (r: String)
        ensures
            r@ == encode(self@),
    {
        let name = chars_of(self.name.as_str());
        let ghost f = record_fields(self@);
        let ghost c = seq![','];
        let mut out: Vec<char> = Vec::new();
        push_decimal(&mut out, self.id as u64);
        assert(out@ =~= f[0]);
        let ghost upto0 = out@;
        out.push(',');
        push_escaped(&mut out, &name);
        assert(out@ =~= upto0 + c + f[1]);
        let ghost upto1 = out@;
        out.push(',');
        push_bool(&mut out, self.completed);
        assert(out@ =~= upto1 + c + f[2]);
        let ghost upto2 = out@;
        out.push(',');
        push_bool(&mut out, self.deleted);
        assert(out@ =~= upto2 + c + f[3]);
        let ghost upto3 = out@;
        out.push(',');
        if let Some(x) = self.created_at {
            push_int(&mut out, x);
        }
        assert(out@ =~= upto3 + c + f[4]);
        let ghost upto4 = out@;
        out.push(',');
        if let Some(x) = self.completed_at {
            push_int(&mut out, x);
        }
        assert(out@ =~= upto4 + c + f[5]);
        let ghost upto5 = out@;
        out.push(',');
        if let Some(x) = self.deleted_at {
            push_int(&mut out, x);
        }
        assert(out@ =~= upto5 + c + f[6]);
        proof {
            lemma_join_seven(f);
        }
        string_of(&out)
    }

    /// The task that a record line holds, or why it holds none.
    pub fn from_str(s: &str) -> (r: Result<Item, ParseItemError>)
        ensures
            decode(s@) == (match r {
                Ok(item) => Ok(item@),
                Err(e) => Err(e),
            }),
    {
        let line = chars_of(s);
        Item::from_chars(&line)
    }

    /// The task that a record line, given as characters, holds.
    #[verifier::rlimit(40)]
    pub fn from_chars(line: &Vec<char>) -> (r: Result<Item, ParseItemError>)
        ensures
            decode(line@) == (match r {
                Ok(item) => Ok(item@),
                Err(e) => Err(e),
            }),
    {
        let f = split_chars(line, ',');
        let ghost sp = split(line@, ',');
        if f.len() != 7 {
            return Err(ParseItemError::FieldCount(f.len()));
        }
        assert(f@[0]@ == sp[0] && f@[1]@ == sp[1] && f@[2]@ == sp[2] && f@[3]@ == sp[3]);
        assert(f@[4]@ == sp[4] && f@[5]@ == sp[5] && f@[6]@ == sp[6]);
        let id = match parse_u32_chars(&f[0]) {
            Some(v) => v,
            None => return Err(ParseItemError::InvalidField(0)),
        };
        let completed = match parse_bool_chars(&f[2]) {
            Some(v) => v,
            None => return Err(ParseItemError::InvalidField(2)),
        };
        let deleted = match parse_bool_chars(&f[3]) {
            Some(v) => v,
            None => return Err(ParseItemError::InvalidField(3)),
        };
        let created_at = match timestamp_from_chars(&f[4]) {
            Some(v) => v,
            None => return Err(ParseItemError::InvalidField(4)),
        };
        let completed_at = match timestamp_from_chars(&f[5]) {
            Some(v) => v,
            None => return Err(ParseItemError::InvalidField(5)),
        };
        let deleted_at = match timestamp_from_chars(&f[6]) {
            Some(v) => v,
            None => return Err(ParseItemError::InvalidField(6)),
        };
        let name = string_of(&unescape_chars(&f[1]));
        Ok(Item { id, name, completed, deleted, created_at, completed_at, deleted_at })
    }
}

/// `s` with spaces in front up to `width` characters.
pub open spec fn pad_left(s: Seq<char>, width: nat) -> Seq<char> {
    if s.len() >= width {
        s
    } else {
        Seq::new((width - s.len()) as nat, |i: int| ' ') + s
    }
}

/// One line of text under a task: a label and a time, or nothing without a time.
pub open spec fn time_line(label: Seq<char>, time: Seq<char>) -> Seq<char> {
    if time.len() == 0 {
        Seq::empty()
    } else {
        seq!['\t'] + label + seq![':', ' '] + time + seq!['\n']
    }
}

/// The display form of a task, given the text of its three times.
pub open spec fn pretty(v: ItemView, created: Seq<char>, completed: Seq<char>, deleted: Seq<char>) -> Seq<char> {
    pad_left(decimal(v.id as nat), 3) + seq![' ']
        + (if v.completed { seq!['\u{2705}'] } else { seq!['\u{1f532}'] }) + seq![' ']
        + (if v.deleted { seq!['\u{1f6ae}'] } else { Seq::empty() }) + seq![' ']
        + v.name + seq!['\n', '\n']
        + time_line("Created at"@, created)
        + time_line("Completed at"@, completed)
        + time_line("Deleted at"@, deleted)
}

/// The Unix timestamps that chrono can turn into a date and time: from the
/// first second of year -262143 to the last second of year 262142.
pub open spec fn chrono_represents(timestamp: int) -> bool {
    -8334601228800 <= timestamp <= 8210266876799
}

/// A task shows a time line for this timestamp: it is present and chrono can
/// represent it.
pub open spec fn shows_time(timestamp: Option<i64>) -> bool {
    match timestamp {
        Some(x) => chrono_represents(x as int),
        None => false,
    }
}

/// The texts for the three times of a task fit it: each is empty exactly
/// when the task shows no line for that time.
pub open spec fn times_fit(v: ItemView, t: (Seq<char>, Seq<char>, Seq<char>)) -> bool {
    &&& (t.0.len() > 0 <==> shows_time(v.created_at))
    &&& (t.1.len() > 0 <==> shows_time(v.completed_at))
    &&& (t.2.len() > 0 <==> shows_time(v.deleted_at))
}

/// Relies on chrono's `DateTime::from_timestamp` and `Local.from_utc_datetime`:
/// the date and time of a Unix timestamp in the machine's time zone, as text.
/// `from_timestamp` gives `None` exactly outside the years -262143 to 262142
/// (`NaiveDate::from_ordinal_and_flags`), and then the text is empty; a date
/// and time always displays as non-empty text. What the text says depends on
/// the time zone.
#[verifier::external_body]
fn local_datetime_text(timestamp: i64) -> (r: String)
    ensures
        r@.len() > 0 <==> chrono_represents(timestamp as int),
{
    match chrono::DateTime::from_timestamp(timestamp, 0) {
        Some(utc) => chrono::Local.from_utc_datetime(&utc.naive_utc()).to_string(),
        None => String::new(),
    }
}

/// The local date and time of a timestamp; nothing without one.
pub fn timestamp_to_datetime_string(timestamp: Option<i64>) -> (r: String)
    ensures
        timestamp is None ==> r@ == Seq::<char>::empty(),
        r@.len() > 0 <==> shows_time(timestamp),
{
    match timestamp {
        Some(t) => local_datetime_text(t),
        None => String::new(),
    }
}

fn push_time_line(out: &mut Vec<char>, label: &str, time: &str)
    ensures
        final(out)@ == old(out)@ + time_line(label@, time@),
{
    let v = chars_of(time);
    if v.len() > 0 {
        out.push('\t');
        push_str(out, label);
        out.push(':');
        out.push(' ');
        push_str(out, time);
        out.push('\n');
    }
    assert(final(out)@ =~= old(out)@ + time_line(label@, time@));
}

impl Item {
    /// A copy of the item.
    pub fn clone_item(&self) -> (r: Item)
        ensures
            r@ == self@,
    {
        Item::new(
            self.id,
            self.name.as_str(),
            self.completed,
            self.deleted,
            self.created_at,
            self.completed_at,
            self.deleted_at,
        )
    }

    pub fn name(&self) -> (r: &str)
        ensures
            r@ == self@.name,
    {
        self.name.as_str()
    }

    pub fn completed(&self) -> (r: bool)
        ensures
            r == self@.completed,
    {
        self.completed
    }

    pub fn deleted(&self) -> (r: bool)
        ensures
            r == self@.deleted,
    {
        self.deleted
    }

    pub fn created_at(&self) -> (r: Option<i64>)
        ensures
            r == self@.created_at,
    {
        self.created_at
    }

    pub fn completed_at(&self) -> (r: Option<i64>)
        ensures
            r == self@.completed_at,
    {
        self.completed_at
    }

    pub fn deleted_at(&self) -> (r: Option<i64>)
        ensures
            r == self@.deleted_at,
    {
        self.deleted_at
    }

    /// The display form of the item, with the given text for its times.
    pub fn to_pretty_string_with(&self, created: &str, completed: &str, deleted: &str) -> (r: String)
        ensures
            r@ == pretty(self@, created@, completed@, deleted@),
    {
        let mut digits: Vec<char> = Vec::new();
        push_decimal(&mut digits, self.id as u64);
        let mut out: Vec<char> = Vec::new();
        let mut k: usize = digits.len();
        while k < 3
            invariant
                digits.len() <= k <= 3 || (k == digits.len() && k >= 3),
                out@ == Seq::new((k - digits.len()) as nat, |i: int| ' '),
            decreases 3 - k,
        {
            out.push(' ');
            k += 1;
            assert(out@ =~= Seq::new((k - digits.len()) as nat, |i: int| ' '));
        }
        let mut j: usize = 0;
        let ghost pad = out@;
        while j < digits.len()
            invariant
                j <= digits.len(),
                out@ == pad + digits@.subrange(0, j as int),
            decreases digits.len() - j,
        {
            out.push(digits[j]);
            j += 1;
            assert(out@ =~= pad + digits@.subrange(0, j as int));
        }
        assert(digits@.subrange(0, digits.len() as int) =~= digits@);
        assert(out@ =~= pad_left(decimal(self.id as nat), 3));
        out.push(' ');
        out.push(if self.completed { '\u{2705}' } else { '\u{1f532}' });
        out.push(' ');
        if self.deleted {
            out.push('\u{1f6ae}');
        }
        out.push(' ');
        push_str(&mut out, self.name.as_str());
        out.push('\n');
        out.push('\n');
        push_time_line(&mut out, "Created at", created);
        push_time_line(&mut out, "Completed at", completed);
        push_time_line(&mut out, "Deleted at", deleted);
        assert(out@ =~= pretty(self@, created@, completed@, deleted@));
        string_of(&out)
    }

    /// The display form of the item, its times in the local time zone.
    pub fn to_prettier_string(&self) -> (r: String)
        ensures
            exists|t: (Seq<char>, Seq<char>, Seq<char>)|
                r@ == #[trigger] pretty(self@, t.0, t.1, t.2) && times_fit(self@, t),
    {
        let created = timestamp_to_datetime_string(self.created_at);
        let completed = timestamp_to_datetime_string(self.completed_at);
        let deleted = timestamp_to_datetime_string(self.deleted_at);
        let r = self.to_pretty_string_with(created.as_str(), completed.as_str(), deleted.as_str());
        proof {
            let t = (created@, completed@, deleted@);
            assert(r@ == pretty(self@, t.0, t.1, t.2) && times_fit(self@, t));
        }
        r
    }
}

} // verus!
