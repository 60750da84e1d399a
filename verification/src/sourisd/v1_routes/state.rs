//! The databases the server holds, by name, and what each request does to them.
//!
//! Locking, the cache of serialised databases and the files on disk stay with the server; this
//! holds the decisions.
use vstd::prelude::*;
use vstd::utf8::is_ascii_chars;
use crate::client::CreationResult;
use crate::sourisd::error::SourisError;
use crate::sourisd::v1_routes::value::{KeyAndDb, NewKeyArgs};
use crate::store::{
    lemma_insert_keeps_keys_distinct,
    lemma_insert_then_get,
    lemma_remove_then_get,
    remove_entry,
    view_keys_distinct,
    Store,
};
use crate::values::{
    entries_view,
    entry_value,
    insert_entry,
    key_position,
    lemma_entries_view,
    lemma_entry_value_absent,
    lemma_entry_value_insert,
    lemma_entry_value_push,
    value_view,
    Value,
    ValueView,
};

verus! {

/// What a store holds: its entries as plain values.
pub open spec fn store_view(s: Store) -> Seq<(Seq<char>, ValueView)> {
    entries_view(s.entries())
}

/// Each database as its name and what it holds.
pub open spec fn dbs_view(d: Seq<(String, Store)>) -> Seq<(Seq<char>, Seq<(Seq<char>, ValueView)>)> {
    d.map_values(|e: (String, Store)| (e.0@, store_view(e.1)))
}

/// The position of the database named `n`, if there is one.
pub open spec fn db_position(dv: Seq<(Seq<char>, Seq<(Seq<char>, ValueView)>)>, n: Seq<char>) -> Option<
    nat,
>
    decreases dv.len(),
{
    if dv.len() == 0 {
        None
    } else if dv[0].0 == n {
        Some(0)
    } else {
        match db_position(dv.drop_first(), n) {
            Some(i) => Some(i + 1),
            None => None,
        }
    }
}

/// The name no database may have: it is kept for the file listing the databases.
pub open spec fn meta_name() -> Seq<char> {
    seq!['m', 'e', 't', 'a']
}

/// Whether a database may have the name `n`: ASCII, and not the reserved name.
pub open spec fn valid_db_name(n: Seq<char>) -> bool {
    n != meta_name() && is_ascii_chars(n)
}

/// The key under which the file listing the databases holds their names.
pub open spec fn db_file_names_key() -> Seq<char> {
    seq!['e', 'x', 'i', 's', 't', 'i', 'n', 'g', '_', 'd', 'b', 's']
}

/// The strings of a list of values, in order; the other values are left out.
pub open spec fn strings_of(vs: Seq<ValueView>) -> Seq<Seq<char>>
    decreases vs.len(),
{
    if vs.len() == 0 {
        Seq::empty()
    } else {
        let rest = strings_of(vs.drop_last());
        match vs.last() {
            ValueView::String(s) => rest.push(s),
            _ => rest,
        }
    }
}

/// The entries of `cur` with each entry of `es` inserted in order (see [`insert_entry`]).
pub open spec fn merged(
    cur: Seq<(Seq<char>, ValueView)>,
    es: Seq<(Seq<char>, ValueView)>,
) -> Seq<(Seq<char>, ValueView)>
    decreases es.len(),
{
    if es.len() == 0 {
        cur
    } else {
        insert_entry(merged(cur, es.drop_last()), es.last().0, es.last().1)
    }
}

/// Merging entries without a repeated key into a database: afterwards each key of those
/// entries holds the value it has among them (a value the database held under that key is
/// replaced), every other key holds what it held before, and no other key appears. A database
/// without a repeated key gets none.
pub proof fn lemma_merged_then_get(
    cur: Seq<(Seq<char>, ValueView)>,
    es: Seq<(Seq<char>, ValueView)>,
    k: Seq<char>,
)
    requires
        view_keys_distinct(es),
    ensures
        entry_value(merged(cur, es), k) == match entry_value(es, k) {
            Some(w) => Some(w),
            None => entry_value(cur, k),
        },
        view_keys_distinct(cur) ==> view_keys_distinct(merged(cur, es)),
    decreases es.len(),
{
    if es.len() > 0 {
        let front = es.drop_last();
        let last = es.last();
        assert forall|i: int, j: int| 0 <= i < j < front.len() implies (#[trigger] front[i]).0
            != (#[trigger] front[j]).0 by {
            assert(front[i] == es[i] && front[j] == es[j]);
        }
        lemma_merged_then_get(cur, front, k);
        lemma_entry_value_insert(merged(cur, front), last.0, last.1, k);
        assert(front.push(last) =~= es);
        lemma_entry_value_push(front, last, k);
        if k == last.0 {
            assert forall|i: int| 0 <= i < front.len() implies (#[trigger] front[i]).0 != k by {
                assert(front[i] == es[i] && es[es.len() - 1] == last);
            }
            lemma_entry_value_absent(front, k);
        }
        if view_keys_distinct(cur) {
            lemma_insert_keeps_keys_distinct(merged(cur, front), last.0, last.1);
        }
    }
}

/// Inserts each entry of `entries` into `cur`, in order.
fn merge_into(cur: &mut Store, entries: Vec<(String, Value)>)
    requires
        old(cur).wf(),
    ensures
        final(cur).wf(),
        store_view(*final(cur)) == merged(store_view(*old(cur)), entries_view(entries@)),
{
    let ghost start = store_view(*cur);
    let ghost ev = entries_view(entries@);
    proof {
        lemma_entries_view(entries@);
        assert(ev.take(0) =~= Seq::<(Seq<char>, ValueView)>::empty());
    }
    for e in it: entries.into_iter()
        invariant
            it.seq() == entries@,
            ev == entries_view(entries@),
            ev.len() == entries@.len(),
            forall|i: int| #![trigger ev[i]] 0 <= i < entries@.len() ==> ev[i] == (
                entries@[i].0@,
                value_view(entries@[i].1),
            ),
            cur.wf(),
            store_view(*cur) == merged(start, ev.take(it.index() as int)),
    {
        let ghost i = it.index() as int;
        let (k, v) = e;
        proof {
            assert(ev[i] == (k@, value_view(v)));
            assert(ev.take(i + 1).drop_last() =~= ev.take(i));
        }
        cur.insert(k, v);
    }
    assert(ev.take(entries@.len() as int) =~= ev);
}

/// Whether no two databases have the same name and no database has a repeated key.
pub open spec fn dbs_view_wf(dv: Seq<(Seq<char>, Seq<(Seq<char>, ValueView)>)>) -> bool {
    &&& forall|i: int, j: int| 0 <= i < j < dv.len() ==> (#[trigger] dv[i]).0 != (#[trigger] dv[j]).0
    &&& forall|i: int| 0 <= i < dv.len() ==> view_keys_distinct(#[trigger] dv[i].1)
}

/// What writing `vv` under `key` into the database `db` gives (see
/// [`SourisState::add_key_value_pair`] when it writes): the key inserted into the database,
/// or a new database holding just that key.
pub open spec fn with_key_written(
    dv: Seq<(Seq<char>, Seq<(Seq<char>, ValueView)>)>,
    db: Seq<char>,
    key: Seq<char>,
    vv: ValueView,
) -> Seq<(Seq<char>, Seq<(Seq<char>, ValueView)>)> {
    match db_position(dv, db) {
        Some(i) => dv.update(i as int, (db, insert_entry(dv[i as int].1, key, vv))),
        None => dv.push((db, seq![(key, vv)])),
    }
}

/// What removing `key` from the database `db` gives (see [`SourisState::remove_key`] when it
/// succeeds).
pub open spec fn with_key_removed(
    dv: Seq<(Seq<char>, Seq<(Seq<char>, ValueView)>)>,
    db: Seq<char>,
    key: Seq<char>,
) -> Seq<(Seq<char>, Seq<(Seq<char>, ValueView)>)> {
    match db_position(dv, db) {
        Some(i) => dv.update(i as int, (db, remove_entry(dv[i as int].1, key))),
        None => dv,
    }
}

/// In databases without a repeated name, the database at position `j` is found there.
proof fn lemma_db_position_of_distinct(dv: Seq<(Seq<char>, Seq<(Seq<char>, ValueView)>)>, j: int)
    requires
        forall|a: int, b: int| 0 <= a < b < dv.len() ==> (#[trigger] dv[a]).0 != (#[trigger] dv[b]).0,
        0 <= j < dv.len(),
    ensures
        db_position(dv, dv[j].0) == Some(j as nat),
{
    assert forall|m: int| 0 <= m < j implies dv[m].0 != dv[j].0 by {
        assert(dv[m].0 != dv[j].0);
    }
    lemma_db_position(dv, dv[j].0, j as nat);
}

/// After a value is written under a key of a database, reading that key of that database
/// gives the value back, and the databases keep distinct names and keys.
pub proof fn lemma_write_then_read(
    dv: Seq<(Seq<char>, Seq<(Seq<char>, ValueView)>)>,
    db: Seq<char>,
    key: Seq<char>,
    vv: ValueView,
)
    requires
        dbs_view_wf(dv),
    ensures
        ({
            let after = with_key_written(dv, db, key, vv);
            &&& dbs_view_wf(after)
            &&& db_position(after, db) matches Some(i) && key_position(after[i as int].1, key) matches Some(j)
                && after[i as int].1[j as int] == (key, vv)
        }),
{
    let after = with_key_written(dv, db, key, vv);
    match db_position(dv, db) {
        Some(i) => {
            lemma_db_position_found(dv, db);
            lemma_insert_then_get(dv[i as int].1, key, vv);
            assert forall|a: int, b: int| 0 <= a < b < after.len() implies (#[trigger] after[a]).0
                != (#[trigger] after[b]).0 by {
                assert(after[a].0 == dv[a].0);
                assert(after[b].0 == dv[b].0);
            }
            lemma_db_position_of_distinct(after, i as int);
        },
        None => {
            lemma_db_position_absent(dv, db);
            let single = seq![(key, vv)];
            assert(view_keys_distinct(single));
            assert(key_position(single, key) == Some(0nat));
            assert forall|a: int, b: int| 0 <= a < b < after.len() implies (#[trigger] after[a]).0
                != (#[trigger] after[b]).0 by {
                if b == dv.len() {
                    assert(after[a] == dv[a]);
                } else {
                    assert(after[a] == dv[a]);
                    assert(after[b] == dv[b]);
                }
            }
            lemma_db_position_of_distinct(after, dv.len() as int);
        },
    }
}

/// After a key is removed from a database, reading that key of that database finds nothing,
/// and the databases keep distinct names and keys.
pub proof fn lemma_remove_then_read(
    dv: Seq<(Seq<char>, Seq<(Seq<char>, ValueView)>)>,
    db: Seq<char>,
    key: Seq<char>,
)
    requires
        dbs_view_wf(dv),
    ensures
        ({
            let after = with_key_removed(dv, db, key);
            &&& dbs_view_wf(after)
            &&& db_position(after, db) matches Some(i) ==> key_position(after[i as int].1, key) is None
        }),
{
    let after = with_key_removed(dv, db, key);
    match db_position(dv, db) {
        Some(i) => {
            lemma_db_position_found(dv, db);
            lemma_remove_then_get(dv[i as int].1, key);
            assert forall|a: int, b: int| 0 <= a < b < after.len() implies (#[trigger] after[a]).0
                != (#[trigger] after[b]).0 by {
                assert(after[a].0 == dv[a].0);
                assert(after[b].0 == dv[b].0);
            }
            lemma_db_position_of_distinct(after, i as int);
        },
        None => {},
    }
}

/// Where a search from the front finds the database named `n` first, or that it finds none.
proof fn lemma_db_position(dv: Seq<(Seq<char>, Seq<(Seq<char>, ValueView)>)>, n: Seq<char>, j: nat)
    requires
        j <= dv.len(),
        forall|m: int| 0 <= m < j ==> dv[m].0 != n,
    ensures
        j < dv.len() && dv[j as int].0 == n ==> db_position(dv, n) == Some(j),
        j == dv.len() ==> db_position(dv, n) is None,
    decreases dv.len(),
{
    if dv.len() > 0 && j > 0 {
        assert forall|m: int| 0 <= m < j - 1 implies dv.drop_first()[m].0 != n by {
            assert(dv.drop_first()[m] == dv[m + 1]);
        }
        lemma_db_position(dv.drop_first(), n, (j - 1) as nat);
        if j < dv.len() {
            assert(dv.drop_first()[j - 1] == dv[j as int]);
        }
    }
}

/// The position [`db_position`] finds holds the name, and no earlier one does.
proof fn lemma_db_position_found(dv: Seq<(Seq<char>, Seq<(Seq<char>, ValueView)>)>, n: Seq<char>)
    requires
        db_position(dv, n) is Some,
    ensures
        db_position(dv, n).unwrap() < dv.len(),
        dv[db_position(dv, n).unwrap() as int].0 == n,
    decreases dv.len(),
{
    if dv[0].0 != n {
        lemma_db_position_found(dv.drop_first(), n);
    }
}

/// When [`db_position`] finds nothing, no database has the name.
proof fn lemma_db_position_absent(dv: Seq<(Seq<char>, Seq<(Seq<char>, ValueView)>)>, n: Seq<char>)
    requires
        db_position(dv, n) is None,
    ensures
        forall|i: int| 0 <= i < dv.len() ==> (#[trigger] dv[i]).0 != n,
    decreases dv.len(),
{
    if dv.len() > 0 {
        lemma_db_position_absent(dv.drop_first(), n);
        assert forall|i: int| 0 <= i < dv.len() implies (#[trigger] dv[i]).0 != n by {
            if i > 0 {
                assert(dv.drop_first()[i - 1] == dv[i]);
            }
        }
    }
}

/// The databases the server holds, by name: no name twice.
pub struct SourisState {
    dbs: Vec<(String, Store)>,
}

impl SourisState {
    /// The databases, in order.
    pub closed spec fn dbs(&self) -> Seq<(String, Store)> {
        self.dbs@
    }

    /// Each database as its name and what it holds.
    pub open spec fn view_dbs(&self) -> Seq<(Seq<char>, Seq<(Seq<char>, ValueView)>)> {
        dbs_view(self.dbs())
    }

    /// No name occurs twice and each store has no repeated key.
    pub open spec fn wf(&self) -> bool {
        &&& forall|i: int, j: int|
            0 <= i < j < self.dbs().len() ==> (#[trigger] self.dbs()[i]).0@ != (
            #[trigger] self.dbs()[j]).0@
        &&& forall|i: int| 0 <= i < self.dbs().len() ==> (#[trigger] self.dbs()[i]).1.wf()
    }

    /// No databases.
    pub fn new() -> (s: Self)
        ensures
            s.wf(),
            s.view_dbs().len() == 0,
    {
        SourisState { dbs: Vec::new() }
    }

    /// The position of the database named `name`: see [`db_position`].
    fn find(&self, name: &str) -> (r: Option<usize>)
        ensures
            r matches Some(k) ==> db_position(self.view_dbs(), name@) == Some(k as nat) && k
                < self.dbs().len(),
            r is None ==> db_position(self.view_dbs(), name@) is None,
    {
        let ghost dv = self.view_dbs();
        let owned: String = name.to_owned();
        let mut j: usize = 0;
        while j < self.dbs.len()
            invariant
                j <= self.dbs@.len(),
                owned@ == name@,
                dv == dbs_view(self.dbs@),
                dv.len() == self.dbs@.len(),
                forall|m: int| 0 <= m < j ==> dv[m].0 != name@,
            decreases self.dbs.len() - j,
        {
            if self.dbs[j].0 == owned {
                proof {
                    assert(dv[j as int].0 == name@);
                    lemma_db_position(dv, name@, j as nat);
                }
                return Some(j);
            }
            j = j + 1;
        }
        proof {
            lemma_db_position(dv, name@, j as nat);
        }
        None
    }

    /// Puts `store` in place of the store at `i`, under the same name.
    fn replace_store(&mut self, i: usize, store: Store) -> (old_store: Store)
        requires
            old(self).wf(),
            i < old(self).dbs().len(),
            store.wf(),
        ensures
            final(self).wf(),
            final(self).dbs().len() == old(self).dbs().len(),
            final(self).view_dbs() == old(self).view_dbs().update(
                i as int,
                (old(self).view_dbs()[i as int].0, store_view(store)),
            ),
            old_store == old(self).dbs()[i as int].1,
    {
        let (name, old_store) = self.dbs.remove(i);
        self.dbs.insert(i, (name, store));
        proof {
            let before = old(self).dbs@;
            assert forall|k: int| 0 <= k < before.len() && k != i implies #[trigger] self.dbs@[k]
                == before[k] by {}
            assert(self.view_dbs() =~= old(self).view_dbs().update(
                i as int,
                (old(self).view_dbs()[i as int].0, store_view(store)),
            ));
        }
        old_store
    }

    /// Creates an empty database named `name`. An existing one is emptied when
    /// `overwrite_existing` is set and kept otherwise. Gives `200` if one was there and `201` if
    /// it was created.
    ///
    /// # Errors
    /// [`SourisError::InvalidDatabaseName`] if the name is not ASCII or is `meta`; nothing
    /// changes then.
    pub fn new_db(&mut self, name: String, overwrite_existing: bool) -> (r: Result<u16, SourisError>)
        requires
            old(self).wf(),
        ensures
            final(self).wf(),
            !valid_db_name(name@) ==> r matches Err(SourisError::InvalidDatabaseName),
            !valid_db_name(name@) ==> final(self).view_dbs() == old(self).view_dbs(),
            valid_db_name(name@) ==> match db_position(old(self).view_dbs(), name@) {
                Some(i) => r == Ok::<u16, SourisError>(200) && final(self).view_dbs() == if overwrite_existing {
                    old(self).view_dbs().update(i as int, (name@, Seq::empty()))
                } else {
                    old(self).view_dbs()
                },
                None => r == Ok::<u16, SourisError>(201) && final(self).view_dbs()
                    == old(self).view_dbs().push((name@, Seq::empty())),
            },
    {
        let meta: String = "meta".to_owned();
        proof {
            reveal_strlit("meta");
            assert(meta@ =~= meta_name());
        }
        if name == meta || !name.as_str().is_ascii() {
            return Err(SourisError::InvalidDatabaseName);
        }
        assert(valid_db_name(name@));
        match self.find(name.as_str()) {
            Some(i) => {
                if overwrite_existing {
                    let empty = Store::new();
                    proof {
                        assert(db_position(self.view_dbs(), name@) == Some(i as nat));
                        lemma_db_position_found(self.view_dbs(), name@);
                        assert(self.view_dbs()[i as int].0 == name@);
                        assert(store_view(empty) =~= Seq::<(Seq<char>, ValueView)>::empty());
                        assert((self.view_dbs()[i as int].0, store_view(empty)) == (
                            name@,
                            Seq::<(Seq<char>, ValueView)>::empty(),
                        ));
                    }
                    self.replace_store(i, empty);
                }
                Ok(200)
            },
            None => {
                let empty = Store::new();
                proof {
                    lemma_db_position_absent(self.view_dbs(), name@);
                    assert(store_view(empty) =~= Seq::<(Seq<char>, ValueView)>::empty());
                }
                self.push_db(name, empty);
                Ok(201)
            },
        }
    }

    /// Creates or fills the database named `name` with `contents`. With
    /// `overwrite_existing` the database becomes `contents`; otherwise each entry of
    /// `contents` is inserted into it (into an empty one if there was none). Gives `201` when a
    /// database with that name was already there and `200` when there was none.
    pub fn new_db_with_contents(&mut self, name: String, overwrite_existing: bool, contents: Store) -> (r: u16)
        requires
            old(self).wf(),
            contents.wf(),
        ensures
            final(self).wf(),
            match db_position(old(self).view_dbs(), name@) {
                Some(i) => r == 201 && final(self).view_dbs() == old(self).view_dbs().update(
                    i as int,
                    (
                        name@,
                        if overwrite_existing {
                            store_view(contents)
                        } else {
                            merged(old(self).view_dbs()[i as int].1, store_view(contents))
                        },
                    ),
                ),
                None => r == 200 && final(self).view_dbs() == old(self).view_dbs().push(
                    (
                        name@,
                        if overwrite_existing {
                            store_view(contents)
                        } else {
                            merged(Seq::empty(), store_view(contents))
                        },
                    ),
                ),
            },
    {
        let ghost dv = self.view_dbs();
        let ghost cv = store_view(contents);
        let pos = self.find(name.as_str());
        proof {
            if let Some(i) = pos {
                lemma_db_position_found(dv, name@);
            } else {
                lemma_db_position_absent(dv, name@);
            }
        }
        let target = if overwrite_existing {
            contents
        } else {
            let mut cur = match pos {
                Some(i) => self.replace_store(i, Store::new()),
                None => Store::new(),
            };
            proof {
                if let Some(i) = pos {
                    assert(store_view(cur) == dv[i as int].1);
                } else {
                    assert(store_view(cur) =~= Seq::<(Seq<char>, ValueView)>::empty());
                }
            }
            merge_into(&mut cur, contents.into_entries());
            cur
        };
        match pos {
            Some(i) => {
                self.replace_store(i, target);
                proof {
                    assert(self.view_dbs() =~= dv.update(i as int, (name@, store_view(target))));
                }
                201
            },
            None => {
                self.push_db(name, target);
                200
            },
        }
    }

    /// Empties the database named `name`.
    ///
    /// # Errors
    /// [`SourisError::DatabaseNotFound`] if there is none; nothing changes then.
    pub fn clear_db(&mut self, name: String) -> (r: Result<(), SourisError>)
        requires
            old(self).wf(),
        ensures
            final(self).wf(),
            match db_position(old(self).view_dbs(), name@) {
                Some(i) => r is Ok && final(self).view_dbs() == old(self).view_dbs().update(
                    i as int,
                    (name@, Seq::empty()),
                ),
                None => r matches Err(SourisError::DatabaseNotFound) && final(self).view_dbs()
                    == old(self).view_dbs(),
            },
    {
        match self.find(name.as_str()) {
            Some(i) => {
                let empty = Store::new();
                proof {
                    lemma_db_position_found(self.view_dbs(), name@);
                    assert(store_view(empty) =~= Seq::<(Seq<char>, ValueView)>::empty());
                    assert((self.view_dbs()[i as int].0, store_view(empty)) == (
                        name@,
                        Seq::<(Seq<char>, ValueView)>::empty(),
                    ));
                }
                self.replace_store(i, empty);
                Ok(())
            },
            None => Err(SourisError::DatabaseNotFound),
        }
    }

    /// Removes the database named `name`; the others keep their order.
    ///
    /// # Errors
    /// [`SourisError::DatabaseNotFound`] if there is none; nothing changes then.
    pub fn remove_db(&mut self, name: String) -> (r: Result<(), SourisError>)
        requires
            old(self).wf(),
        ensures
            final(self).wf(),
            match db_position(old(self).view_dbs(), name@) {
                Some(i) => r is Ok && final(self).view_dbs() == old(self).view_dbs().remove(i as int),
                None => r matches Err(SourisError::DatabaseNotFound) && final(self).view_dbs()
                    == old(self).view_dbs(),
            },
    {
        match self.find(name.as_str()) {
            Some(i) => {
                let ghost before = self.dbs@;
                self.dbs.remove(i);
                proof {
                    assert forall|k: int| 0 <= k < self.dbs@.len() implies #[trigger] self.dbs@[k]
                        == before[if k < i { k } else { k + 1 }] by {}
                    assert(self.view_dbs() =~= old(self).view_dbs().remove(i as int));
                    assert forall|a: int, b: int| 0 <= a < b < self.dbs@.len() implies (
                    #[trigger] self.dbs@[a]).0@ != (#[trigger] self.dbs@[b]).0@ by {
                        let a0 = if a < i { a } else { a + 1 };
                        let b0 = if b < i { b } else { b + 1 };
                        assert(self.dbs@[a] == before[a0]);
                        assert(self.dbs@[b] == before[b0]);
                    }
                    assert forall|k: int| 0 <= k < self.dbs@.len() implies (#[trigger] self.dbs@[k]).1.wf() by {
                        assert(self.dbs@[k] == before[if k < i { k } else { k + 1 }]);
                    }
                }
                Ok(())
            },
            None => Err(SourisError::DatabaseNotFound),
        }
    }

    /// The database named `name`.
    ///
    /// # Errors
    /// [`SourisError::DatabaseNotFound`] if there is none.
    pub fn get_db(&self, name: &str) -> (r: Result<&Store, SourisError>)
        ensures
            match db_position(self.view_dbs(), name@) {
                Some(i) => r matches Ok(s) && *s == self.dbs()[i as int].1,
                None => r matches Err(SourisError::DatabaseNotFound),
            },
    {
        match self.find(name) {
            Some(i) => Ok(&self.dbs[i].1),
            None => Err(SourisError::DatabaseNotFound),
        }
    }

    /// Adds `v` under `key` in the database `db_name`: into an existing database, replacing
    /// the value of an existing key only with `overwrite_key`; into a new database only with
    /// `create_new_database`. Says which of these happened.
    pub fn add_key_value_pair(&mut self, args: NewKeyArgs, v: Value) -> (r: CreationResult)
        requires
            old(self).wf(),
        ensures
            final(self).wf(),
            match db_position(old(self).view_dbs(), args.db_name@) {
                Some(i) => {
                    let sv = old(self).view_dbs()[i as int].1;
                    let added = old(self).view_dbs().update(
                        i as int,
                        (args.db_name@, insert_entry(sv, args.key@, value_view(v))),
                    );
                    match key_position(sv, args.key@) {
                        Some(_) => if args.overwrite_key {
                            r == CreationResult::OverwroteKeyInExistingDB && final(self).view_dbs()
                                == added
                        } else {
                            r == CreationResult::FoundExistingKey && final(self).view_dbs() == old(self).view_dbs()
                        },
                        None => r == CreationResult::InsertedKeyIntoExistingDB && final(self).view_dbs() == added,
                    }
                },
                None => if args.create_new_database {
                    r == CreationResult::InsertedKeyIntoNewDB && final(self).view_dbs() == old(self).view_dbs().push((args.db_name@, seq![(args.key@, value_view(v))]))
                } else {
                    r == CreationResult::UnableToFindDB && final(self).view_dbs() == old(self).view_dbs()
                },
            },
    {
        let ghost dv = self.view_dbs();
        let NewKeyArgs { db_name, key, create_new_database, overwrite_key } = args;
        match self.find(db_name.as_str()) {
            Some(i) => {
                proof {
                    lemma_db_position_found(dv, db_name@);
                }
                let exists = self.dbs[i].1.contains_key(key.as_str());
                if exists && !overwrite_key {
                    return CreationResult::FoundExistingKey;
                }
                let mut store = self.replace_store(i, Store::new());
                store.insert(key, v);
                self.replace_store(i, store);
                proof {
                    assert(self.view_dbs() =~= dv.update(
                        i as int,
                        (db_name@, insert_entry(dv[i as int].1, args.key@, value_view(v))),
                    ));
                }
                if exists {
                    CreationResult::OverwroteKeyInExistingDB
                } else {
                    CreationResult::InsertedKeyIntoExistingDB
                }
            },
            None => {
                if !create_new_database {
                    return CreationResult::UnableToFindDB;
                }
                proof {
                    lemma_db_position_absent(dv, db_name@);
                }
                let mut store = Store::new();
                let ghost kv = key@;
                store.insert(key, v);
                proof {
                    assert(store_view(store) =~= seq![(kv, value_view(v))]);
                }
                self.push_db(db_name, store);
                CreationResult::InsertedKeyIntoNewDB
            },
        }
    }

    /// The value under the key in the database of `args`.
    ///
    /// # Errors
    /// - [`SourisError::DatabaseNotFound`] if there is no such database;
    /// - [`SourisError::KeyNotFound`] if it has no such key.
    pub fn get_value(&self, args: KeyAndDb) -> (r: Result<&Value, SourisError>)
        ensures
            match db_position(self.view_dbs(), args.db_name@) {
                Some(i) => match key_position(self.view_dbs()[i as int].1, args.key@) {
                    Some(j) => r matches Ok(x) && *x == self.dbs()[i as int].1.entries()[j as int].1,
                    None => r matches Err(SourisError::KeyNotFound),
                },
                None => r matches Err(SourisError::DatabaseNotFound),
            },
    {
        match self.find(args.db_name.as_str()) {
            Some(i) => {
                proof {
                    lemma_db_position_found(self.view_dbs(), args.db_name@);
                }
                match self.dbs[i].1.get(args.key.as_str()) {
                    Some(x) => Ok(x),
                    None => Err(SourisError::KeyNotFound),
                }
            },
            None => Err(SourisError::DatabaseNotFound),
        }
    }

    /// Removes the key of `args` from its database.
    ///
    /// # Errors
    /// - [`SourisError::DatabaseNotFound`] if there is no such database;
    /// - [`SourisError::KeyNotFound`] if it has no such key.
    ///
    /// Nothing changes on an error.
    pub fn remove_key(&mut self, args: KeyAndDb) -> (r: Result<(), SourisError>)
        requires
            old(self).wf(),
        ensures
            final(self).wf(),
            match db_position(old(self).view_dbs(), args.db_name@) {
                Some(i) => {
                    let sv = old(self).view_dbs()[i as int].1;
                    match key_position(sv, args.key@) {
                        Some(_) => r is Ok && final(self).view_dbs() == old(self).view_dbs().update(
                            i as int,
                            (args.db_name@, remove_entry(sv, args.key@)),
                        ),
                        None => r matches Err(SourisError::KeyNotFound) && final(self).view_dbs()
                            == old(self).view_dbs(),
                    }
                },
                None => r matches Err(SourisError::DatabaseNotFound) && final(self).view_dbs()
                    == old(self).view_dbs(),
            },
    {
        let ghost dv = self.view_dbs();
        match self.find(args.db_name.as_str()) {
            Some(i) => {
                proof {
                    lemma_db_position_found(dv, args.db_name@);
                }
                if !self.dbs[i].1.contains_key(args.key.as_str()) {
                    return Err(SourisError::KeyNotFound);
                }
                let mut store = self.replace_store(i, Store::new());
                store.remove(args.key.as_str());
                self.replace_store(i, store);
                proof {
                    assert(self.view_dbs() =~= dv.update(
                        i as int,
                        (args.db_name@, remove_entry(dv[i as int].1, args.key@)),
                    ));
                }
                Ok(())
            },
            None => Err(SourisError::DatabaseNotFound),
        }
    }

    /// The names of the databases, in order.
    pub fn get_all_db_names(&self) -> (r: Vec<String>)
        ensures
            r@.len() == self.view_dbs().len(),
            forall|i: int| 0 <= i < r@.len() ==> (#[trigger] r@[i])@ == self.view_dbs()[i].0,
    {
        let mut names: Vec<String> = Vec::new();
        let mut i: usize = 0;
        while i < self.dbs.len()
            invariant
                i <= self.dbs@.len(),
                names@.len() == i,
                forall|k: int| 0 <= k < i ==> (#[trigger] names@[k])@ == self.dbs@[k].0@,
            decreases self.dbs.len() - i,
        {
            names.push(self.dbs[i].0.clone());
            i = i + 1;
        }
        names
    }

    /// A well-formed state has databases with distinct names and keys, as its view shows.
    pub proof fn lemma_wf_view(&self)
        requires
            self.wf(),
        ensures
            dbs_view_wf(self.view_dbs()),
    {
        let dv = self.view_dbs();
        assert forall|a: int, b: int| 0 <= a < b < dv.len() implies (#[trigger] dv[a]).0 != (
        #[trigger] dv[b]).0 by {
            assert(dv[a].0 == self.dbs()[a].0@);
            assert(dv[b].0 == self.dbs()[b].0@);
        }
        assert forall|i: int| 0 <= i < dv.len() implies view_keys_distinct(#[trigger] dv[i].1) by {
            let es = self.dbs()[i].1.entries();
            assert(self.dbs()[i].1.wf());
            lemma_entries_view(es);
            assert forall|a: int, b: int| 0 <= a < b < dv[i].1.len() implies (#[trigger] dv[i].1[a]).0
                != (#[trigger] dv[i].1[b]).0 by {
                assert(dv[i].1[a].0 == es[a].0@);
                assert(dv[i].1[b].0 == es[b].0@);
            }
        }
    }

    /// The names of the databases listed in the meta store `meta`: the strings of the array
    /// under `existing_dbs`, in order, other values left out. `None` if there is no such
    /// array.
    pub fn db_names_in_meta(meta: &Store) -> (r: Option<Vec<String>>)
        requires
            meta.wf(),
        ensures
            match key_position(store_view(*meta), db_file_names_key()) {
                Some(j) => match store_view(*meta)[j as int].1 {
                    ValueView::Array(vs) => r matches Some(ns) && ns@.map_values(|n: String| n@)
                        == strings_of(vs),
                    _ => r is None,
                },
                None => r is None,
            },
    {
        let key: String = "existing_dbs".to_owned();
        proof {
            reveal_strlit("existing_dbs");
            assert(key@ =~= db_file_names_key());
            lemma_entries_view(meta.entries());
        }
        let found = meta.get(key.as_str());
        proof {
            if let Some(x) = found {
                let j = key_position(store_view(*meta), db_file_names_key()).unwrap();
                crate::store::lemma_key_position_found(store_view(*meta), db_file_names_key());
                assert(*x == meta.entries()[j as int].1);
                assert(store_view(*meta)[j as int].1 == value_view(*x));
            }
        }
        match found {
            Some(Value::Array(values)) => {
                let ghost vv = crate::values::values_view(values@);
                proof {
                    crate::values::lemma_values_view(values@);
                }
                let mut names: Vec<String> = Vec::new();
                let mut i: usize = 0;
                assert(vv.take(0) =~= Seq::<ValueView>::empty());
                while i < values.len()
                    invariant
                        i <= values@.len(),
                        vv == crate::values::values_view(values@),
                        vv.len() == values@.len(),
                        forall|k: int| #![trigger vv[k]] 0 <= k < values@.len() ==> vv[k] == value_view(
                            values@[k],
                        ),
                        names@.map_values(|n: String| n@) == strings_of(vv.take(i as int)),
                    decreases values.len() - i,
                {
                    let ghost before = names@;
                    assert(vv.take(i as int + 1).drop_last() =~= vv.take(i as int));
                    match &values[i] {
                        Value::String(st) => {
                            names.push(st.clone());
                            assert(names@.map_values(|n: String| n@) =~= before.map_values(
                                |n: String| n@,
                            ).push(st@));
                        },
                        _ => {},
                    }
                    i = i + 1;
                }
                assert(vv.take(values@.len() as int) =~= vv);
                Some(names)
            },
            _ => None,
        }
    }

    /// The meta store listing the databases `names`: `existing_dbs` holding their names as an
    /// array of strings, in order.
    pub fn meta_with_names(names: Vec<String>) -> (r: Store)
        ensures
            r.wf(),
            store_view(r) == seq![
                (
                    db_file_names_key(),
                    ValueView::Array(names@.map_values(|n: String| ValueView::String(n@))),
                ),
            ],
    {
        let ghost nv = names@;
        let mut values: Vec<Value> = Vec::new();
        for n in it: names.into_iter()
            invariant
                it.seq() == nv,
                crate::values::values_view(values@) == nv.take(it.index() as int).map_values(
                    |n: String| ValueView::String(n@),
                ),
        {
            let ghost before = values@;
            let ghost nn = n@;
            let v = Value::String(n);
            let ghost gv = v;
            values.push(v);
            proof {
                assert(values@ == before.push(gv));
                assert(values@.drop_last() =~= before);
                assert(values@.last() == gv);
                assert(value_view(gv) == ValueView::String(nn));
                assert(crate::values::values_view(values@) == crate::values::values_view(before).push(
                    ValueView::String(nn),
                ));
                assert(nv.take(it.index() as int + 1).map_values(|n: String| ValueView::String(n@))
                    =~= nv.take(it.index() as int).map_values(|n: String| ValueView::String(n@)).push(
                    ValueView::String(nv[it.index() as int]@),
                ));
            }
        }
        assert(nv.take(nv.len() as int) =~= nv);
        let key: String = "existing_dbs".to_owned();
        proof {
            reveal_strlit("existing_dbs");
            assert(key@ =~= db_file_names_key());
        }
        let mut meta = Store::new();
        meta.insert(key, Value::Array(values));
        proof {
            assert(store_view(meta) =~= seq![
                (
                    db_file_names_key(),
                    ValueView::Array(names@.map_values(|n: String| ValueView::String(n@))),
                ),
            ]);
        }
        meta
    }

    /// Adds a database under a name no database has.
    fn push_db(&mut self, name: String, store: Store)
        requires
            old(self).wf(),
            store.wf(),
            forall|i: int| 0 <= i < old(self).view_dbs().len() ==> (#[trigger] old(self).view_dbs()[i]).0 != name@,
        ensures
            final(self).wf(),
            final(self).view_dbs() == old(self).view_dbs().push((name@, store_view(store))),
    {
        let ghost nv = name@;
        self.dbs.push((name, store));
        proof {
            let before = old(self).dbs@;
            assert forall|i: int| 0 <= i < before.len() implies (#[trigger] before[i]).0@ != nv by {
                assert(old(self).view_dbs()[i].0 == before[i].0@);
            }
            assert(self.view_dbs() =~= old(self).view_dbs().push((nv, store_view(store))));
        }
    }
}

} // verus!
