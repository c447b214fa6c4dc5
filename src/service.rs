//! The task operations: each reads and edits the store and says what it did.
use vstd::prelude::*;
use crate::model::{decode, encode, pretty, times_fit, lemma_decode_encode, lemma_encode_one_line, lemma_round_trip, reread, Item, ItemView};
use crate::escape::is_plain_name;
use crate::storage::{
    self, destroy_len, ends_line, header, lemma_items_append, lemma_update_in_place, line_items, find, get_all, get_item_by_id, items, line_at, line_end, max_id, spliced, Csv,
    StorageError,
};
use crate::text::{decimal, free_of, push_decimal, push_str, string_of};

verus! {

/// Which tasks a listing shows.
#[derive(Debug, Clone, Copy, PartialEq, Eq, Structural)]
pub enum ListType {
    All,
    Completed,
    Uncompleted,
    Deleted,
}

/// The edits that keep a task's record but change its state.
#[derive(Debug, Clone, Copy, PartialEq, Eq, Structural)]
pub enum Change {
    Complete,
    Uncomplete,
    Delete,
    Restore,
}

/// The id that `add` gives the next task: one past the largest, 0 for an empty store.
pub open spec fn next_id(v: Seq<ItemView>) -> int {
    if v.len() == 0 { 0 } else { max_id(v) + 1 }
}

/// A task just added.
pub open spec fn new_task(id: u32, name: Seq<char>, now: i64) -> ItemView {
    ItemView {
        id,
        name,
        completed: false,
        deleted: false,
        created_at: Some(now),
        completed_at: None,
        deleted_at: None,
    }
}

/// A task after a change at time `now`: the flag and its timestamp move together.
pub open spec fn changed(v: ItemView, c: Change, now: i64) -> ItemView {
    match c {
        Change::Complete => ItemView { completed: true, completed_at: Some(now), ..v },
        Change::Uncomplete => ItemView { completed: false, completed_at: None, ..v },
        Change::Delete => ItemView { deleted: true, deleted_at: Some(now), ..v },
        Change::Restore => ItemView { deleted: false, deleted_at: None, ..v },
    }
}

pub open spec fn selected(t: ListType, v: ItemView) -> bool {
    match t {
        ListType::All => true,
        ListType::Completed => v.completed,
        ListType::Uncompleted => !v.completed,
        ListType::Deleted => v.deleted,
    }
}

/// The tasks of `v` that a listing of kind `t` shows, in order.
pub open spec fn selected_items(v: Seq<ItemView>, t: ListType) -> Seq<ItemView>
    decreases v.len(),
{
    if v.len() == 0 {
        Seq::empty()
    } else {
        let r = selected_items(v.drop_last(), t);
        if selected(t, v.last()) { r.push(v.last()) } else { r }
    }
}

/// The confirmation text: a verb and the id.
pub open spec fn confirmation(verb: Seq<char>, id: u32) -> Seq<char> {
    verb + seq![' '] + decimal(id as nat)
}

/// The record at `p` of the store text, decoded.
pub open spec fn record_at(s: Seq<char>, p: int) -> ItemView {
    match decode(line_at(s, p)) {
        Ok(v) => v,
        Err(_) => arbitrary(),
    }
}

/// What `add` does to the store and returns, when the new task was made at `now`.
pub open spec fn add_outcome(
    before: Seq<char>,
    after: Seq<char>,
    name: Seq<char>,
    now: i64,
    r: Result<Seq<char>, StorageError>,
) -> bool {
    let v = items(before);
    if next_id(v) > u32::MAX {
        r == Err::<Seq<char>, StorageError>(StorageError::IdsExhausted) && after == before
    } else {
        &&& after == before + encode(new_task(next_id(v) as u32, name, now)) + seq!['\n']
        &&& r == Ok::<Seq<char>, StorageError>(confirmation("Added"@, next_id(v) as u32))
    }
}

pub open spec fn message_view(r: Result<String, StorageError>) -> Result<Seq<char>, StorageError> {
    match r {
        Ok(m) => Ok(m@),
        Err(e) => Err(e),
    }
}

fn confirm(verb: &str, id: u32) -> (r: String)
    ensures
        r@ == confirmation(verb@, id),
{
    let mut out: Vec<char> = Vec::new();
    push_str(&mut out, verb);
    out.push(' ');
    push_decimal(&mut out, id as u64);
    assert(out@ =~= confirmation(verb@, id));
    string_of(&out)
}

/// The id for a new task, or `None` when every id is taken.
pub fn allocate_id(csv: &Csv) -> (r: Option<u32>)
    ensures
        next_id(items(csv@)) <= u32::MAX ==> r == Some(next_id(items(csv@)) as u32),
        next_id(items(csv@)) > u32::MAX ==> r is None,
{
    let all = get_all(csv);
    if all.len() == 0 {
        return Some(0);
    }
    let m = storage::get_max_id(csv);
    if m == u32::MAX {
        None
    } else {
        Some(m + 1)
    }
}

/// Adds a task named `name`, made at `now`, under the next id.
pub fn add_item_at(csv: &mut Csv, name: &str, now: i64) -> (r: Result<String, StorageError>)
    ensures
        add_outcome(old(csv)@, final(csv)@, name@, now, message_view(r)),
{
    match allocate_id(csv) {
        None => Err(StorageError::IdsExhausted),
        Some(id) => {
            let item = Item::new(id, name, false, false, Some(now), None, None);
            storage::add_item(csv, item);
            proof {
                reveal_strlit("Added");
            }
            Ok(confirm("Added", id))
        },
    }
}

/// Applies a change at time `now` to the task with this id.
pub fn change_item_at(csv: &mut Csv, id: u32, c: Change, now: i64) -> (r: Result<Item, StorageError>)
    ensures
        match find(old(csv)@, id) {
            Some(p) => {
                let v = changed(record_at(old(csv)@, p), c, now);
                &&& r is Ok
                &&& r->Ok_0@ == v
                &&& final(csv)@ == spliced(old(csv)@, p, line_end(old(csv)@, p) - p, encode(v))
            },
            None => r == Err::<Item, StorageError>(StorageError::ItemNoExist(id))
                && final(csv)@ == old(csv)@,
        },
{
    let item = match get_item_by_id(csv, id) {
        Ok(item) => item,
        Err(e) => return Err(e),
    };
    let ghost p = find(csv@, id)->Some_0;
    assert(item@ == record_at(csv@, p));
    assert(item@.id == id);
    let mut next = item;
    match c {
        Change::Complete => {
            next.completed = true;
            next.completed_at = Some(now);
        },
        Change::Uncomplete => {
            next.completed = false;
            next.completed_at = None;
        },
        Change::Delete => {
            next.deleted = true;
            next.deleted_at = Some(now);
        },
        Change::Restore => {
            next.deleted = false;
            next.deleted_at = None;
        },
    }
    assert(next@ == changed(record_at(csv@, p), c, now));
    let copy = next.clone_item();
    match storage::update_item(csv, copy) {
        Ok(()) => Ok(next),
        Err(e) => Err(e),
    }
}

/// Marks the task with this id completed at `now`.
pub fn complete_item_at(csv: &mut Csv, id: u32, now: i64) -> (r: Result<String, StorageError>)
    ensures
        match find(old(csv)@, id) {
            Some(p) => message_view(r) == Ok::<Seq<char>, StorageError>(confirmation("Completed"@, id))
                && final(csv)@ == spliced(old(csv)@, p, line_end(old(csv)@, p) - p,
                    encode(changed(record_at(old(csv)@, p), Change::Complete, now))),
            None => r == Err::<String, StorageError>(StorageError::ItemNoExist(id))
                && final(csv)@ == old(csv)@,
        },
{
    match change_item_at(csv, id, Change::Complete, now) {
        Ok(_) => {
            proof { reveal_strlit("Completed"); }
            Ok(confirm("Completed", id))
        },
        Err(e) => Err(e),
    }
}

/// Marks the task with this id not completed.
pub fn uncomplete_item(csv: &mut Csv, id: u32) -> (r: Result<String, StorageError>)
    ensures
        match find(old(csv)@, id) {
            Some(p) => message_view(r) == Ok::<Seq<char>, StorageError>(confirmation("Uncompleted"@, id))
                && final(csv)@ == spliced(old(csv)@, p, line_end(old(csv)@, p) - p,
                    encode(changed(record_at(old(csv)@, p), Change::Uncomplete, 0))),
            None => r == Err::<String, StorageError>(StorageError::ItemNoExist(id))
                && final(csv)@ == old(csv)@,
        },
{
    match change_item_at(csv, id, Change::Uncomplete, 0) {
        Ok(_) => {
            proof { reveal_strlit("Uncompleted"); }
            Ok(confirm("Uncompleted", id))
        },
        Err(e) => Err(e),
    }
}

/// Marks the task with this id deleted at `now`; its record stays.
pub fn delete_item_at(csv: &mut Csv, id: u32, now: i64) -> (r: Result<String, StorageError>)
    ensures
        match find(old(csv)@, id) {
            Some(p) => message_view(r) == Ok::<Seq<char>, StorageError>(confirmation("Deleted"@, id))
                && final(csv)@ == spliced(old(csv)@, p, line_end(old(csv)@, p) - p,
                    encode(changed(record_at(old(csv)@, p), Change::Delete, now))),
            None => r == Err::<String, StorageError>(StorageError::ItemNoExist(id))
                && final(csv)@ == old(csv)@,
        },
{
    match change_item_at(csv, id, Change::Delete, now) {
        Ok(_) => {
            proof { reveal_strlit("Deleted"); }
            Ok(confirm("Deleted", id))
        },
        Err(e) => Err(e),
    }
}

/// Takes back the deletion of the task with this id.
pub fn restore_item(csv: &mut Csv, id: u32) -> (r: Result<String, StorageError>)
    ensures
        match find(old(csv)@, id) {
            Some(p) => message_view(r) == Ok::<Seq<char>, StorageError>(confirmation("Restored"@, id))
                && final(csv)@ == spliced(old(csv)@, p, line_end(old(csv)@, p) - p,
                    encode(changed(record_at(old(csv)@, p), Change::Restore, 0))),
            None => r == Err::<String, StorageError>(StorageError::ItemNoExist(id))
                && final(csv)@ == old(csv)@,
        },
{
    match change_item_at(csv, id, Change::Restore, 0) {
        Ok(_) => {
            proof { reveal_strlit("Restored"); }
            Ok(confirm("Restored", id))
        },
        Err(e) => Err(e),
    }
}

/// Removes the record of the task with this id for good.
pub fn destroy_item(csv: &mut Csv, id: u32) -> (r: Result<String, StorageError>)
    ensures
        match find(old(csv)@, id) {
            Some(p) => message_view(r) == Ok::<Seq<char>, StorageError>(confirmation("Destroyed"@, id))
                && final(csv)@ == spliced(old(csv)@, p, destroy_len(old(csv)@, p), Seq::empty()),
            None => r == Err::<String, StorageError>(StorageError::ItemNoExist(id))
                && final(csv)@ == old(csv)@,
        },
{
    match storage::destroy_item(csv, id) {
        Ok(()) => {
            proof { reveal_strlit("Destroyed"); }
            Ok(confirm("Destroyed", id))
        },
        Err(e) => Err(e),
    }
}

/// The tasks of the store that a listing of kind `t` shows, in order.
pub fn list_items(csv: &Csv, t: ListType) -> (r: Vec<Item>)
    ensures
        r@.map_values(|it: Item| it@) == selected_items(items(csv@), t),
{
    let all = get_all(csv);
    let ghost v = all@.map_values(|it: Item| it@);
    let mut out: Vec<Item> = Vec::new();
    let mut i: usize = 0;
    assert(v.subrange(0, 0) =~= Seq::<ItemView>::empty());
    while i < all.len()
        invariant
            i <= all.len(),
            v == all@.map_values(|it: Item| it@),
            out@.map_values(|it: Item| it@) == selected_items(v.subrange(0, i as int), t),
        decreases all.len() - i,
    {
        assert(v.subrange(0, i + 1).drop_last() =~= v.subrange(0, i as int));
        let item = all[i].clone_item();
        let keep = match t {
            ListType::All => true,
            ListType::Completed => item.completed,
            ListType::Uncompleted => !item.completed,
            ListType::Deleted => item.deleted,
        };
        let ghost before = out@.map_values(|it: Item| it@);
        if keep {
            out.push(item);
            assert(out@.map_values(|it: Item| it@) =~= before.push(v[i as int]));
        }
        i += 1;
    }
    assert(v.subrange(0, all.len() as int) =~= v);
    out
}

/// The display forms of the tasks one after another, with the given texts
/// for their times.
pub open spec fn render(v: Seq<ItemView>, times: Seq<(Seq<char>, Seq<char>, Seq<char>)>) -> Seq<char>
    decreases v.len(),
{
    if v.len() == 0 || times.len() == 0 {
        Seq::empty()
    } else {
        render(v.drop_last(), times.drop_last())
            + pretty(v.last(), times.last().0, times.last().1, times.last().2)
    }
}

/// The display form of a listing of kind `t`: each task shown after the other,
/// its times in the local time zone.
pub fn list(csv: &Csv, t: ListType) -> (r: String)
    ensures
        exists|times: Seq<(Seq<char>, Seq<char>, Seq<char>)>|
            times.len() == selected_items(items(csv@), t).len()
                && r@ == #[trigger] render(selected_items(items(csv@), t), times)
                && forall|i: int| 0 <= i < times.len()
                    ==> times_fit(selected_items(items(csv@), t)[i], #[trigger] times[i]),
{
    let shown = list_items(csv, t);
    let ghost v = shown@.map_values(|it: Item| it@);
    let ghost mut times: Seq<(Seq<char>, Seq<char>, Seq<char>)> = Seq::empty();
    let mut out: Vec<char> = Vec::new();
    let mut i: usize = 0;
    assert(v.subrange(0, 0) =~= Seq::<ItemView>::empty());
    while i < shown.len()
        invariant
            i <= shown.len(),
            v == shown@.map_values(|it: Item| it@),
            times.len() == i,
            out@ == render(v.subrange(0, i as int), times),
            forall|k: int| 0 <= k < i ==> times_fit(v[k], #[trigger] times[k]),
        decreases shown.len() - i,
    {
        let s = shown[i].to_prettier_string();
        let ghost tm = choose|tm: (Seq<char>, Seq<char>, Seq<char>)|
            s@ == #[trigger] pretty(v[i as int], tm.0, tm.1, tm.2) && times_fit(v[i as int], tm);
        push_str(&mut out, s.as_str());
        proof {
            let old_times = times;
            times = times.push(tm);
            assert(v.subrange(0, i + 1).drop_last() =~= v.subrange(0, i as int));
            assert(times.drop_last() =~= old_times);
        }
        i += 1;
    }
    assert(v.subrange(0, shown.len() as int) =~= v);
    string_of(&out)
}

/// Restoring a deleted task gives it back with only the deletion undone;
/// a task that was not deleted comes back exactly as it was.
pub proof fn lemma_restore_after_delete(v: ItemView, now: i64)
    ensures
        changed(changed(v, Change::Delete, now), Change::Restore, now)
            == (ItemView { deleted: false, deleted_at: None, ..v }),
        !v.deleted && v.deleted_at is None
            ==> changed(changed(v, Change::Delete, now), Change::Restore, now) == v,
{
}

proof fn lemma_max_of_sequential(v: Seq<ItemView>)
    requires
        v.len() > 0,
        forall|i: int| 0 <= i < v.len() ==> (#[trigger] v[i]).id == i,
    ensures
        max_id(v) == v.len() - 1,
    decreases v.len(),
{
    let init = v.drop_last();
    if init.len() > 0 {
        assert forall|i: int| 0 <= i < init.len() implies (#[trigger] init[i]).id == i by {
            assert(init[i] == v[i]);
        }
        lemma_max_of_sequential(init);
    }
    assert(v[v.len() - 1].id == v.len() - 1);
    assert(max_id(v) == (if v.last().id > max_id(init) { v.last().id } else { max_id(init) }));
}

proof fn lemma_max_id_bound(v: Seq<ItemView>, i: int)
    requires
        0 <= i < v.len(),
    ensures
        v[i].id <= max_id(v),
    decreases v.len(),
{
    let init = v.drop_last();
    if i < init.len() {
        lemma_max_id_bound(init, i);
        assert(init[i] == v[i]);
    }
}

/// The ids of the records are pairwise distinct.
pub open spec fn distinct_ids(v: Seq<ItemView>) -> bool {
    forall|i: int, j: int| 0 <= i < j < v.len() ==> (#[trigger] v[i]).id != (#[trigger] v[j]).id
}

/// Appending the record line of an item whose id is the next one adds
/// exactly that record, with an id larger than every id already there: ids
/// that were distinct stay distinct. This holds for every name; only the
/// name can come back changed, when it holds a sentinel token.
pub proof fn lemma_append_next_id(s: Seq<char>, t: ItemView)
    requires
        ends_line(s),
        t.id == next_id(items(s)),
    ensures
        ({
            let v = items(s);
            let s2 = s + encode(t) + seq!['\n'];
            &&& items(s2) == v.push(reread(t))
            &&& ends_line(s2)
            &&& forall|i: int| 0 <= i < v.len() ==> (#[trigger] v[i]).id < t.id
            &&& distinct_ids(v) ==> distinct_ids(items(s2))
        }),
{
    let v = items(s);
    lemma_encode_one_line(t);
    lemma_decode_encode(t);
    lemma_items_append(s, encode(t));
    assert(line_items(encode(t)) == seq![reread(t)]);
    assert(v + seq![reread(t)] =~= v.push(reread(t)));
    let s2 = s + encode(t) + seq!['\n'];
    assert(s2.last() == '\n');
    assert forall|i: int| 0 <= i < v.len() implies (#[trigger] v[i]).id < t.id by {
        lemma_max_id_bound(v, i);
    }
    if distinct_ids(v) {
        let w = items(s2);
        assert forall|i: int, j: int| 0 <= i < j < w.len() implies (#[trigger] w[i]).id != (#[trigger] w[j]).id by {
            assert(w[i] == v[i]);
            if j < v.len() {
                assert(w[j] == v[j]);
            } else {
                assert(w[j] == reread(t));
            }
        }
    }
}

/// Ids are handed out in order from zero. When the records of a store carry
/// the ids 0, 1, ..., k - 1 in order, `add` gives the new task the id k, and
/// afterwards the records carry 0, 1, ..., k, whatever the name.
pub proof fn lemma_add_sequential(s: Seq<char>, name: Seq<char>, now: i64)
    requires
        ends_line(s),
        items(s).len() <= u32::MAX,
        forall|i: int| 0 <= i < items(s).len() ==> (#[trigger] items(s)[i]).id == i,
    ensures
        next_id(items(s)) == items(s).len(),
        ({
            let t = new_task(items(s).len() as u32, name, now);
            let s2 = s + encode(t) + seq!['\n'];
            &&& items(s2) == items(s).push(reread(t))
            &&& ends_line(s2)
            &&& forall|i: int| 0 <= i < items(s2).len() ==> (#[trigger] items(s2)[i]).id == i
        }),
{
    let v = items(s);
    if v.len() > 0 {
        lemma_max_of_sequential(v);
    }
    let t = new_task(v.len() as u32, name, now);
    lemma_append_next_id(s, t);
    let s2 = s + encode(t) + seq!['\n'];
    assert forall|i: int| 0 <= i < items(s2).len() implies (#[trigger] items(s2)[i]).id == i by {
        if i < v.len() {
            assert(items(s2)[i] == v[i]);
        }
    }
}

/// The text of a new store after `add` of each name in turn, the k-th at
/// `nows[k]`, each add giving the next id.
pub open spec fn after_adds(names: Seq<Seq<char>>, nows: Seq<i64>) -> Seq<char>
    decreases names.len(),
{
    if names.len() == 0 || nows.len() == 0 {
        header().push('\n')
    } else {
        let s = after_adds(names.drop_last(), nows.drop_last());
        s + encode(new_task(next_id(items(s)) as u32, names.last(), nows.last())) + seq!['\n']
    }
}

/// `add` called n times on a new store gives the ids 0 to n - 1, in call
/// order, each once, whatever the names.
pub proof fn lemma_adds_from_new_store(names: Seq<Seq<char>>, nows: Seq<i64>)
    requires
        names.len() == nows.len(),
        names.len() <= u32::MAX + 1,
    ensures
        ends_line(after_adds(names, nows)),
        items(after_adds(names, nows)).len() == names.len(),
        forall|i: int| 0 <= i < names.len() ==> (#[trigger] items(after_adds(names, nows))[i]).id == i,
        distinct_ids(items(after_adds(names, nows))),
    decreases names.len(),
{
    if names.len() == 0 {
        storage::lemma_header_no_record();
    } else {
        let n1 = names.drop_last();
        let t1 = nows.drop_last();
        lemma_adds_from_new_store(n1, t1);
        let s = after_adds(n1, t1);
        lemma_add_sequential(s, names.last(), nows.last());
    }
    let w = items(after_adds(names, nows));
    assert forall|i: int, j: int| 0 <= i < j < w.len() implies (#[trigger] w[i]).id != (#[trigger] w[j]).id by {
        assert(w[i].id == i);
        assert(w[j].id == j);
    }
}

/// Deleting a task and then restoring it leaves its record where it was,
/// identical to what it was but for the deletion mark and time, which are
/// cleared. The name holds no sentinel token. When the task was not deleted
/// and its line was its record line, the whole text comes back unchanged.
pub proof fn lemma_delete_restore_store(s: Seq<char>, id: u32, now: i64)
    requires
        find(s, id) is Some,
        is_plain_name(record_at(s, find(s, id)->Some_0).name),
    ensures
        ({
            let p = find(s, id)->Some_0;
            let v = record_at(s, p);
            let d = changed(v, Change::Delete, now);
            let s1 = spliced(s, p, line_end(s, p) - p, encode(d));
            let r = changed(record_at(s1, p), Change::Restore, 0);
            let s2 = spliced(s1, p, line_end(s1, p) - p, encode(r));
            &&& find(s1, id) == Some(p)
            &&& find(s2, id) == Some(p)
            &&& record_at(s2, p) == (ItemView { deleted: false, deleted_at: None, ..v })
            &&& (line_at(s, p) == encode(v) && !v.deleted && v.deleted_at is None ==> s2 == s)
        }),
{
    let p = find(s, id)->Some_0;
    storage::lemma_find_from(s, id, 0);
    let v = record_at(s, p);
    assert(v.id == id);
    let d = changed(v, Change::Delete, now);
    lemma_update_in_place(s, d);
    let s1 = spliced(s, p, line_end(s, p) - p, encode(d));
    assert(record_at(s1, p) == d);
    let r = changed(d, Change::Restore, 0);
    lemma_update_in_place(s1, r);
    let s2 = spliced(s1, p, line_end(s1, p) - p, encode(r));
    if line_at(s, p) == encode(v) && !v.deleted && v.deleted_at is None {
        assert(r == v);
        storage::lemma_line_end(s, p);
        let e = line_end(s, p);
        let x = p + encode(d).len();
        assert(s1.subrange(0, p) =~= s.subrange(0, p));
        assert(s1.subrange(x, s1.len() as int) =~= s.subrange(e, s.len() as int));
        assert(s2 =~= s.subrange(0, p) + s.subrange(p, e) + s.subrange(e, s.len() as int));
        assert(s2 =~= s);
    }
}

} // verus!
