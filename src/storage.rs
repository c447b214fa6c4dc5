//! The record store: the text of the task file, one record per line after a
//! header line, edited in place by splicing.
use vstd::prelude::*;
use crate::model::{decode, encode, Item, ItemView};
use crate::text::{chars_of, string_of};

verus! {

/// The text of the task file. Offsets and lengths count its characters;
/// the file is written back whole, so they need not count bytes.
pub struct Csv {
    content: Vec<char>,
}

impl View for Csv {
    type V = Seq<char>;

    closed spec fn view(&self) -> Seq<char> {
        self.content@
    }
}

/// Why a store operation did not happen.
#[derive(Debug, Clone, Copy, PartialEq, Eq, Structural)]
pub enum StorageError {
    /// No record holds this id.
    ItemNoExist(u32),
    /// Every id is taken: the largest one is `u32::MAX`.
    IdsExhausted,
}

/// The header line that a new task file starts with.
pub open spec fn header() -> Seq<char> {
    seq![
        'i', 'd', ',', 'n', 'a', 'm', 'e', ',', 'c', 'o', 'm', 'p', 'l', 'e', 't', 'e', 'd', ',',
        'd', 'e', 'l', 'e', 't', 'e', 'd', ',', 'c', 'r', 'e', 'a', 't', 'e', 'd', 'A', 't', ',',
        'c', 'o', 'm', 'p', 'l', 'e', 't', 'e', 'd', 'A', 't', ',', 'd', 'e', 'l', 'e', 't', 'e',
        'd', 'A', 't',
    ]
}

/// Where the line that starts at `p` ends: at the next newline, or at the end.
pub open spec fn line_end(s: Seq<char>, p: int) -> int
    decreases s.len() - p,
{
    if p >= s.len() {
        s.len() as int
    } else if s[p] == '\n' {
        p
    } else {
        line_end(s, p + 1)
    }
}

pub open spec fn line_at(s: Seq<char>, p: int) -> Seq<char> {
    s.subrange(p, line_end(s, p))
}

pub open spec fn line_has_id(line: Seq<char>, id: u32) -> bool {
    match decode(line) {
        Ok(v) => v.id == id,
        Err(_) => false,
    }
}

/// The offset of the first line, from the line at `p` on, that holds a
/// record with this id.
pub open spec fn find_from(s: Seq<char>, id: u32, p: int) -> Option<int>
    decreases s.len() + 1 - p,
{
    if p < 0 || p > s.len() {
        None
    } else if line_has_id(line_at(s, p), id) {
        Some(p)
    } else if line_end(s, p) >= s.len() || line_end(s, p) < p {
        None
    } else {
        find_from(s, id, line_end(s, p) + 1)
    }
}

/// The offset of the first line that holds a record with this id.
pub open spec fn find(s: Seq<char>, id: u32) -> Option<int> {
    find_from(s, id, 0)
}

/// The records of the lines from the one at `p` on; lines that hold no
/// record are passed over.
pub open spec fn items_from(s: Seq<char>, p: int) -> Seq<ItemView>
    decreases s.len() + 1 - p,
{
    if p < 0 || p > s.len() || line_end(s, p) < p {
        Seq::empty()
    } else {
        let rest = if line_end(s, p) >= s.len() {
            Seq::empty()
        } else {
            items_from(s, line_end(s, p) + 1)
        };
        match decode(line_at(s, p)) {
            Ok(v) => seq![v] + rest,
            Err(_) => rest,
        }
    }
}

/// Every record of the text, in order.
pub open spec fn items(s: Seq<char>) -> Seq<ItemView> {
    items_from(s, 0)
}

/// The text with `del` characters at `offset` replaced by `rep`.
pub open spec fn spliced(s: Seq<char>, offset: int, del: int, rep: Seq<char>) -> Seq<char> {
    s.subrange(0, offset) + rep + s.subrange(offset + del, s.len() as int)
}

/// A line that the search finds holds a record with the id searched for.
pub proof fn lemma_find_from(s: Seq<char>, id: u32, q: int)
    requires
        find_from(s, id, q) is Some,
    ensures
        line_has_id(line_at(s, find_from(s, id, q)->Some_0), id),
        0 <= find_from(s, id, q)->Some_0 <= s.len(),
    decreases s.len() + 1 - q,
{
    if 0 <= q <= s.len() && !line_has_id(line_at(s, q), id) && q <= line_end(s, q) < s.len() {
        lemma_find_from(s, id, line_end(s, q) + 1);
    }
}

pub proof fn lemma_line_end(s: Seq<char>, p: int)
    requires
        0 <= p <= s.len(),
    ensures
        p <= line_end(s, p) <= s.len(),
        forall|k: int| p <= k < line_end(s, p) ==> s[k] != '\n',
        line_end(s, p) < s.len() ==> s[line_end(s, p)] == '\n',
    decreases s.len() - p,
{
    if p < s.len() && s[p] != '\n' {
        lemma_line_end(s, p + 1);
    }
}

fn line_end_exec(s: &Vec<char>, p: usize) -> (e: usize)
    requires
        p <= s.len(),
    ensures
        e == line_end(s@, p as int),
        p <= e <= s.len(),
{
    let mut i: usize = p;
    proof {
        lemma_line_end(s@, p as int);
    }
    while i < s.len() && s[i] != '\n'
        invariant
            p <= i <= s.len(),
            line_end(s@, i as int) == line_end(s@, p as int),
        decreases s.len() - i,
    {
        i += 1;
    }
    i
}

fn copy_range(s: &Vec<char>, from: usize, to: usize) -> (r: Vec<char>)
    requires
        from <= to <= s.len(),
    ensures
        r@ == s@.subrange(from as int, to as int),
{
    let mut r: Vec<char> = Vec::new();
    let mut i: usize = from;
    while i < to
        invariant
            from <= i <= to <= s.len(),
            r@ == s@.subrange(from as int, i as int),
        decreases to - i,
    {
        r.push(s[i]);
        i += 1;
        assert(r@ =~= s@.subrange(from as int, i as int));
    }
    r
}

impl Csv {
    /// A store over the given file text.
    pub fn from_text(text: &str) -> (r: Csv)
        ensures
            r@ == text@,
    {
        Csv { content: chars_of(text) }
    }

    /// The text of a new task file: the header line alone.
    pub fn with_header() -> (r: Csv)
        ensures
            r@ == header().push('\n'),
    {
        let content = vec![
            'i', 'd', ',', 'n', 'a', 'm', 'e', ',', 'c', 'o', 'm', 'p', 'l', 'e', 't', 'e', 'd', ',',
            'd', 'e', 'l', 'e', 't', 'e', 'd', ',', 'c', 'r', 'e', 'a', 't', 'e', 'd', 'A', 't', ',',
            'c', 'o', 'm', 'p', 'l', 'e', 't', 'e', 'd', 'A', 't', ',', 'd', 'e', 'l', 'e', 't', 'e',
            'd', 'A', 't', '\n',
        ];
        assert(content@ =~= header().push('\n'));
        Csv { content }
    }

    /// The whole text.
    pub fn content(&self) -> (r: String)
        ensures
            r@ == self@,
    {
        string_of(&self.content)
    }

    /// Adds a line at the end of the text.
    pub fn append(&mut self, line: &str)
        ensures
            final(self)@ == old(self)@ + line@ + seq!['\n'],
    {
        let v = chars_of(line);
        let mut i: usize = 0;
        let ghost start = self.content@;
        while i < v.len()
            invariant
                i <= v.len(),
                self.content@ == start + v@.subrange(0, i as int),
            decreases v.len() - i,
        {
            self.content.push(v[i]);
            i += 1;
            assert(self.content@ =~= start + v@.subrange(0, i as int));
        }
        self.content.push('\n');
        assert(v@.subrange(0, v.len() as int) =~= v@);
        assert(self.content@ =~= start + line@ + seq!['\n']);
    }

    /// Removes `delete_size` characters at `offset` and puts `write_content`
    /// in their place; what stands before and after is kept as it was.
    pub fn splice(&mut self, offset: usize, delete_size: usize, write_content: &str)
        requires
            offset + delete_size <= old(self)@.len(),
        ensures
            final(self)@ == spliced(old(self)@, offset as int, delete_size as int, write_content@),
            final(self)@.len() == old(self)@.len() - delete_size + write_content@.len(),
            final(self)@.subrange(0, offset as int) == old(self)@.subrange(0, offset as int),
            final(self)@.subrange(offset + write_content@.len(), final(self)@.len() as int)
                == old(self)@.subrange(offset + delete_size, old(self)@.len() as int),
    {
        let ghost s = self.content@;
        let rep = chars_of(write_content);
        let mut out = copy_range(&self.content, 0, offset);
        let mut i: usize = 0;
        while i < rep.len()
            invariant
                i <= rep.len(),
                self.content@ == s,
                offset + delete_size <= s.len(),
                out@ == s.subrange(0, offset as int) + rep@.subrange(0, i as int),
            decreases rep.len() - i,
        {
            out.push(rep[i]);
            i += 1;
            assert(out@ =~= s.subrange(0, offset as int) + rep@.subrange(0, i as int));
        }
        assert(rep@.subrange(0, rep.len() as int) =~= rep@);
        assert(s.len() == self.content.len());
        let mut j: usize = offset + delete_size;
        let ghost mid = out@;
        while j < self.content.len()
            invariant
                offset + delete_size <= j <= self.content.len(),
                self.content@ == s,
                out@ == mid + s.subrange(offset + delete_size, j as int),
            decreases self.content.len() - j,
        {
            out.push(self.content[j]);
            j += 1;
            assert(out@ =~= mid + s.subrange(offset + delete_size, j as int));
        }
        self.content = out;
        let ghost r = spliced(s, offset as int, delete_size as int, write_content@);
        assert(self.content@ =~= r);
        assert(r.subrange(0, offset as int) =~= s.subrange(0, offset as int));
        assert(r.subrange(offset + write_content@.len(), r.len() as int)
            =~= s.subrange(offset + delete_size, s.len() as int));
    }
}

/// The largest id among the records, 0 when there is none.
pub open spec fn max_id(v: Seq<ItemView>) -> u32
    decreases v.len(),
{
    if v.len() == 0 {
        0
    } else {
        let m = max_id(v.drop_last());
        if v.last().id > m { v.last().id } else { m }
    }
}

/// How many characters `destroy_item` removes for the line at `p`: the line
/// and the newline that ends it, if one does.
pub open spec fn destroy_len(s: Seq<char>, p: int) -> int {
    if line_end(s, p) < s.len() {
        line_end(s, p) - p + 1
    } else {
        line_end(s, p) - p
    }
}

/// The first record with this id, its offset and the length of its line.
fn find_line(csv: &Csv, id: u32) -> (r: Option<(Item, usize, usize)>)
    ensures
        match r {
            Some((item, p, len)) => {
                &&& find(csv@, id) == Some(p as int)
                &&& p + len == line_end(csv@, p as int)
                &&& p + len <= csv@.len()
                &&& decode(line_at(csv@, p as int)) == Ok::<ItemView, crate::model::ParseItemError>(item@)
            },
            None => find(csv@, id) is None,
        },
{
    let s = &csv.content;
    let mut p: usize = 0;
    while p <= s.len()
        invariant
            p <= s.len() + 1,
            s@ == csv@,
            find(s@, id) == find_from(s@, id, p as int),
        decreases s.len() + 1 - p,
    {
        let e = line_end_exec(s, p);
        let line = copy_range(s, p, e);
        match Item::from_chars(&line) {
            Ok(item) => {
                if item.id == id {
                    return Some((item, p, e - p));
                }
            },
            Err(_) => {},
        }
        if e >= s.len() {
            return None;
        }
        p = e + 1;
    }
    None
}

/// The offset of the first line that holds a record with this id.
pub fn get_offset_by_id(csv: &Csv, id: u32) -> (r: Result<usize, StorageError>)
    ensures
        match find(csv@, id) {
            Some(p) => r == Ok::<usize, StorageError>(p as usize),
            None => r == Err::<usize, StorageError>(StorageError::ItemNoExist(id)),
        },
{
    match find_line(csv, id) {
        Some((_, p, _)) => Ok(p),
        None => Err(StorageError::ItemNoExist(id)),
    }
}

/// The first record with this id.
pub fn get_item_by_id(csv: &Csv, id: u32) -> (r: Result<Item, StorageError>)
    ensures
        match find(csv@, id) {
            Some(p) => r is Ok && r->Ok_0@.id == id
                && decode(line_at(csv@, p)) == Ok::<ItemView, crate::model::ParseItemError>(r->Ok_0@),
            None => r == Err::<Item, StorageError>(StorageError::ItemNoExist(id)),
        },
{
    match find_line(csv, id) {
        Some((item, _, _)) => {
            proof {
                lemma_find_from(csv@, id, 0);
            }
            Ok(item)
        },
        None => Err(StorageError::ItemNoExist(id)),
    }
}

/// Every record, in the order of the lines; lines that hold none are passed over.
pub fn get_all(csv: &Csv) -> (r: Vec<Item>)
    ensures
        r@.map_values(|it: Item| it@) == items(csv@),
{
    let s = &csv.content;
    let mut out: Vec<Item> = Vec::new();
    let mut p: usize = 0;
    while p <= s.len()
        invariant
            p <= s.len() + 1,
            s@ == csv@,
            out@.map_values(|it: Item| it@) + items_from(s@, p as int) == items(s@),
        decreases s.len() + 1 - p,
    {
        let e = line_end_exec(s, p);
        let line = copy_range(s, p, e);
        let ghost rest = if e >= s.len() { Seq::<ItemView>::empty() } else { items_from(s@, e + 1) };
        let ghost before = out@.map_values(|it: Item| it@);
        match Item::from_chars(&line) {
            Ok(item) => {
                out.push(item);
                assert(out@.map_values(|it: Item| it@) =~= before.push(item@));
                assert(before + items_from(s@, p as int) =~= out@.map_values(|it: Item| it@) + rest);
            },
            Err(_) => {},
        }
        if e >= s.len() {
            assert(out@.map_values(|it: Item| it@) + Seq::<ItemView>::empty() =~= out@.map_values(|it: Item| it@));
            return out;
        }
        p = e + 1;
    }
    assert(out@.map_values(|it: Item| it@) + Seq::<ItemView>::empty() =~= out@.map_values(|it: Item| it@));
    out
}

/// The largest id in the store, 0 when it holds no record.
pub fn get_max_id(csv: &Csv) -> (r: u32)
    ensures
        r == max_id(items(csv@)),
{
    let all = get_all(csv);
    let ghost v = all@.map_values(|it: Item| it@);
    let mut m: u32 = 0;
    let mut i: usize = 0;
    assert(v.subrange(0, 0) =~= Seq::<ItemView>::empty());
    while i < all.len()
        invariant
            i <= all.len(),
            v == all@.map_values(|it: Item| it@),
            m == max_id(v.subrange(0, i as int)),
        decreases all.len() - i,
    {
        assert(v.subrange(0, i + 1).drop_last() =~= v.subrange(0, i as int));
        let id = all[i].id;
        if id > m {
            m = id;
        }
        i += 1;
    }
    assert(v.subrange(0, all.len() as int) =~= v);
    m
}

/// Adds the record of a task as the last line.
pub fn add_item(csv: &mut Csv, item: Item)
    ensures
        final(csv)@ == old(csv)@ + encode(item@) + seq!['\n'],
{
    let line = item.to_string();
    csv.append(line.as_str());
}

/// Writes a task over the first record with its id.
pub fn update_item(csv: &mut Csv, item: Item) -> (r: Result<(), StorageError>)
    ensures
        match find(old(csv)@, item@.id) {
            Some(p) => r is Ok && final(csv)@ == spliced(
                old(csv)@,
                p,
                line_end(old(csv)@, p) - p,
                encode(item@),
            ),
            None => r == Err::<(), StorageError>(StorageError::ItemNoExist(item@.id))
                && final(csv)@ == old(csv)@,
        },
{
    match find_line(csv, item.id) {
        Some((_, p, len)) => {
            let line = item.to_string();
            csv.splice(p, len, line.as_str());
            Ok(())
        },
        None => Err(StorageError::ItemNoExist(item.id)),
    }
}

/// Removes the first record with this id, with the newline that ends it.
pub fn destroy_item(csv: &mut Csv, id: u32) -> (r: Result<(), StorageError>)
    ensures
        match find(old(csv)@, id) {
            Some(p) => r is Ok && final(csv)@ == spliced(
                old(csv)@,
                p,
                destroy_len(old(csv)@, p),
                Seq::empty(),
            ),
            None => r == Err::<(), StorageError>(StorageError::ItemNoExist(id))
                && final(csv)@ == old(csv)@,
        },
{
    match find_line(csv, id) {
        Some((_, p, len)) => {
            let n = csv.content.len();
            let del = if p + len < n { len + 1 } else { len };
            csv.splice(p, del, "");
            proof {
                reveal_strlit("");
            }
            Ok(())
        },
        None => Err(StorageError::ItemNoExist(id)),
    }
}

/// The records that one line adds to a listing: its record, or none.
pub open spec fn line_items(line: Seq<char>) -> Seq<ItemView> {
    match decode(line) {
        Ok(v) => seq![v],
        Err(_) => Seq::empty(),
    }
}

/// A text that is empty or ends with a newline: a line added to it starts a line.
pub open spec fn ends_line(s: Seq<char>) -> bool {
    s.len() == 0 || s.last() == '\n'
}

proof fn lemma_line_end_extend(s: Seq<char>, t: Seq<char>, p: int, k: int)
    requires
        0 <= p <= k < s.len(),
        s[k] == '\n',
    ensures
        line_end(s + t, p) == line_end(s, p),
    decreases s.len() - p,
{
    assert((s + t)[p] == s[p]);
    if s[p] != '\n' {
        lemma_line_end_extend(s, t, p + 1, k);
    }
}

proof fn lemma_empty_line_no_record()
    ensures
        decode(Seq::<char>::empty()) is Err,
{
    assert(crate::text::split(Seq::<char>::empty(), ',').len() == 1);
}

proof fn lemma_items_append_from(s: Seq<char>, line: Seq<char>, p: int)
    requires
        ends_line(s),
        crate::text::free_of(line, '\n'),
        0 <= p <= s.len(),
        p == 0 || s[p - 1] == '\n',
    ensures
        items_from(s + line + seq!['\n'], p) == items_from(s, p) + line_items(line),
    decreases s.len() + 1 - p,
{
    let s2 = s + line + seq!['\n'];
    lemma_line_end(s, p);
    lemma_line_end(s2, p);
    if p == s.len() {
        lemma_empty_line_no_record();
        assert(s.subrange(p, p) =~= Seq::<char>::empty());
        assert(line_end(s, p) == p);
        assert(items_from(s, p) == Seq::<ItemView>::empty());
        let e = (s.len() + line.len()) as int;
        assert(s2[e] == '\n');
        assert forall|k: int| p <= k < e implies s2[k] != '\n' by {
            assert(s2[k] == line[k - p]);
        }
        assert(line_end(s2, p) == e) by {
            if line_end(s2, p) < e {
                assert(s2[line_end(s2, p)] == '\n');
            }
        }
        assert(s2.subrange(p, e) =~= line);
        lemma_line_end(s2, e + 1);
        assert(s2.subrange(e + 1, e + 1) =~= Seq::<char>::empty());
        assert(items_from(s2, e + 1) == Seq::<ItemView>::empty());
        assert(items_from(s2, p) =~= items_from(s, p) + line_items(line));
    } else {
        let t = line + seq!['\n'];
        assert(s2 =~= s + t);
        lemma_line_end_extend(s, t, p, s.len() - 1);
        let e = line_end(s, p);
        assert(e < s.len()) by {
            if e == s.len() {
                assert(s[s.len() - 1] != '\n');
            }
        }
        assert(s2.subrange(p, e) =~= s.subrange(p, e));
        lemma_items_append_from(s, line, e + 1);
        assert(items_from(s2, p) =~= items_from(s, p) + line_items(line));
    }
}

/// Adding a line to a text that ends with a newline adds that line's record,
/// if it holds one, after the records already there.
pub proof fn lemma_items_append(s: Seq<char>, line: Seq<char>)
    requires
        ends_line(s),
        crate::text::free_of(line, '\n'),
    ensures
        items(s + line + seq!['\n']) == items(s) + line_items(line),
{
    lemma_items_append_from(s, line, 0);
}

/// A new task file holds no record: its header line is none.
pub proof fn lemma_header_no_record()
    ensures
        items(header().push('\n')) == Seq::<ItemView>::empty(),
        ends_line(header().push('\n')),
{
    let h = header();
    assert(crate::text::free_of(h, '\n'));
    let f = crate::text::split(h, ',');
    crate::text::lemma_split_first(h, ',');
    assert(crate::text::char_digit(f[0][0]) is None);
    assert(crate::text::parse_u32(f[0]) is None);
    assert(decode(h) is Err);
    lemma_empty_line_no_record();
    lemma_line_end(Seq::<char>::empty(), 0);
    assert(Seq::<char>::empty().subrange(0, 0) =~= Seq::<char>::empty());
    assert(items(Seq::<char>::empty()) == Seq::<ItemView>::empty());
    lemma_items_append(Seq::<char>::empty(), h);
    assert(Seq::<char>::empty() + h + seq!['\n'] =~= h.push('\n'));
    assert(items(h.push('\n')) =~= Seq::<ItemView>::empty());
}

/// No line after the first one with this id holds it too.
pub open spec fn id_unique(s: Seq<char>, id: u32) -> bool {
    match find(s, id) {
        Some(p) => line_end(s, p) >= s.len() || find_from(s, id, line_end(s, p) + 1) is None,
        None => true,
    }
}

proof fn lemma_find_from_ge(s: Seq<char>, id: u32, q: int)
    requires
        find_from(s, id, q) is Some,
    ensures
        find_from(s, id, q)->Some_0 >= q,
    decreases s.len() + 1 - q,
{
    if 0 <= q <= s.len() && !line_has_id(line_at(s, q), id) && q <= line_end(s, q) < s.len() {
        lemma_find_from_ge(s, id, line_end(s, q) + 1);
    }
}

proof fn lemma_line_end_shift(s: Seq<char>, s2: Seq<char>, d: int, j: int)
    requires
        0 <= d,
        0 <= j <= s2.len(),
        s2.len() + d == s.len(),
        forall|k: int| j <= k < s2.len() ==> s2[k] == s[k + d],
    ensures
        line_end(s2, j) + d == line_end(s, j + d),
    decreases s2.len() - j,
{
    if j < s2.len() && s2[j] != '\n' {
        lemma_line_end_shift(s, s2, d, j + 1);
    }
}

proof fn lemma_find_shift(s: Seq<char>, s2: Seq<char>, d: int, j: int, id: u32)
    requires
        0 <= d,
        0 <= j <= s2.len(),
        s2.len() + d == s.len(),
        forall|k: int| j <= k < s2.len() ==> s2[k] == s[k + d],
    ensures
        find_from(s2, id, j) is None <==> find_from(s, id, j + d) is None,
    decreases s2.len() + 1 - j,
{
    lemma_line_end_shift(s, s2, d, j);
    lemma_line_end(s2, j);
    lemma_line_end(s, j + d);
    let e2 = line_end(s2, j);
    assert(s2.subrange(j, e2) =~= s.subrange(j + d, e2 + d));
    if e2 < s2.len() {
        lemma_find_shift(s, s2, d, e2 + 1, id);
    }
}

proof fn lemma_find_prefix(s: Seq<char>, s2: Seq<char>, p: int, q: int, id: u32)
    requires
        0 <= q <= p <= s.len(),
        p <= s2.len(),
        s2.subrange(0, p) == s.subrange(0, p),
        find_from(s, id, q) == Some(p),
    ensures
        find_from(s2, id, q) == find_from(s2, id, p),
    decreases p - q,
{
    if q < p {
        lemma_line_end(s, q);
        let e = line_end(s, q);
        lemma_find_from_ge(s, id, e + 1);
        let pre = s.subrange(0, p);
        assert(s[e] == '\n');
        assert(pre[e] == '\n');
        assert(s =~= pre + s.subrange(p, s.len() as int));
        assert(s2 =~= pre + s2.subrange(p, s2.len() as int));
        lemma_line_end_extend(pre, s.subrange(p, s.len() as int), q, e);
        lemma_line_end_extend(pre, s2.subrange(p, s2.len() as int), q, e);
        assert(s2.subrange(q, e) =~= s.subrange(q, e)) by {
            assert forall|k: int| q <= k < e implies s2[k] == s[k] by {
                assert(s2.subrange(0, p)[k] == s.subrange(0, p)[k]);
            }
        }
        lemma_find_prefix(s, s2, p, e + 1, id);
    }
}

/// Once the only record with an id is destroyed, no lookup finds that id.
pub proof fn lemma_destroy_removes(s: Seq<char>, id: u32)
    requires
        find(s, id) is Some,
        id_unique(s, id),
    ensures
        ({
            let p = find(s, id)->Some_0;
            find(spliced(s, p, destroy_len(s, p), Seq::empty()), id) is None
        }),
{
    let p = find(s, id)->Some_0;
    lemma_find_from(s, id, 0);
    lemma_line_end(s, p);
    let e = line_end(s, p);
    let s2 = spliced(s, p, destroy_len(s, p), Seq::empty());
    assert(s2.subrange(0, p) =~= s.subrange(0, p));
    lemma_find_prefix(s, s2, p, 0, id);
    if e < s.len() {
        let d = e + 1 - p;
        assert forall|k: int| p <= k < s2.len() implies s2[k] == s[k + d] by {}
        lemma_find_shift(s, s2, d, p, id);
    } else {
        assert(s2 =~= s.subrange(0, p));
        lemma_line_end(s2, p);
        lemma_empty_line_no_record();
        assert(s2.subrange(p, p) =~= Seq::<char>::empty());
    }
}

/// After a record is written over the first one with its id, a lookup of
/// that id finds the new record at the same offset.
pub proof fn lemma_update_in_place(s: Seq<char>, v: ItemView)
    requires
        find(s, v.id) is Some,
        crate::escape::is_plain_name(v.name),
    ensures
        ({
            let p = find(s, v.id)->Some_0;
            let s1 = spliced(s, p, line_end(s, p) - p, encode(v));
            &&& find(s1, v.id) == Some(p)
            &&& decode(line_at(s1, p)) == Ok::<ItemView, crate::model::ParseItemError>(v)
            &&& line_end(s1, p) == p + encode(v).len()
        }),
{
    let id = v.id;
    let p = find(s, id)->Some_0;
    lemma_find_from(s, id, 0);
    lemma_line_end(s, p);
    let e = line_end(s, p);
    let enc = encode(v);
    let s1 = spliced(s, p, e - p, enc);
    crate::model::lemma_encode_one_line(v);
    crate::model::lemma_round_trip(v);
    assert(s1.subrange(0, p) =~= s.subrange(0, p));
    lemma_find_prefix(s, s1, p, 0, id);
    let x = p + enc.len();
    lemma_line_end(s1, p);
    assert forall|k: int| p <= k < x implies s1[k] != '\n' by {
        assert(s1[k] == enc[k - p]);
    }
    if x < s1.len() {
        assert(s1[x] == s[e]);
    }
    assert(line_end(s1, p) == x) by {
        if line_end(s1, p) < x {
            assert(s1[line_end(s1, p)] == '\n');
        }
    }
    assert(s1.subrange(p, x) =~= enc);
}

} // verus!
