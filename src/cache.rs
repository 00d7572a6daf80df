use vstd::prelude::*;

use crate::text::same_text;

verus! {

/// One bang: where its trigger sends a search.
#[derive(Debug, Clone)]
pub struct Redirect {
    /// The short name or abbreviation of the bang command.
    pub short_name: String,
    /// The trigger text for the bang command (e.g., "g" for Google).
    pub trigger: String,
    /// The URL template where the search term is inserted.
    pub url_template: String,
}

impl Redirect {
    /// A field-by-field copy.
    pub fn duplicate(&self) -> (r: Redirect)
        ensures
            r == *self,
    {
        Redirect {
            short_name: self.short_name.clone(),
            trigger: self.trigger.clone(),
            url_template: self.url_template.clone(),
        }
    }
}

/// Why a registry operation was refused.
#[derive(Debug, Clone, Copy, PartialEq, Eq, Structural)]
pub enum RegistryError {
    /// The registry already holds entries and overwriting was not asked for.
    AlreadyInitialized,
}

/// The bangs known to the service: a sequence of redirects, in the order
/// they were added, and an index from trigger to position in it.
///
/// Every trigger of the index points at an entry. After a full load the
/// index covers each entry's trigger; in between it may cover fewer.
/// The index is kept as a list of distinct triggers beside their positions,
/// so a lookup compares triggers one after the other.
pub struct Registry {
    redirects: Vec<Redirect>,
    triggers: Vec<String>,
    slots: Vec<usize>,
    index: Ghost<Map<Seq<char>, usize>>,
}

/// What initialising with `new` makes of the entries `cur`: `None` when it
/// is refused, because there are entries and overwriting was not asked for.
pub open spec fn initialized(cur: Seq<Redirect>, new: Seq<Redirect>, overwrite: bool) -> Option<
    Seq<Redirect>,
> {
    if cur.len() > 0 && !overwrite {
        None
    } else {
        Some(cur + new)
    }
}

/// Entries and index after storing `r`: in place of the entry of its
/// trigger if there is one, else appended, with its trigger indexed.
pub open spec fn upserted(
    entries: Seq<Redirect>,
    index: Map<Seq<char>, usize>,
    r: Redirect,
) -> (Seq<Redirect>, Map<Seq<char>, usize>) {
    if index.contains_key(r.trigger@) {
        (entries.update(index[r.trigger@] as int, r), index)
    } else {
        (entries.push(r), index.insert(r.trigger@, entries.len() as usize))
    }
}

/// Every trigger of `index` points at one of `len` entries.
pub open spec fn index_in_bounds(index: Map<Seq<char>, usize>, len: int) -> bool {
    forall|k: Seq<char>| #[trigger] index.contains_key(k) ==> index[k] < len
}

impl Registry {
    /// The stored redirects, in order.
    pub closed spec fn entries(&self) -> Seq<Redirect> {
        self.redirects@
    }

    /// The trigger index.
    pub closed spec fn index(&self) -> Map<Seq<char>, usize> {
        self.index@
    }

    /// The registry's invariant.
    pub closed spec fn wf(&self) -> bool {
        &&& self.triggers@.len() == self.slots@.len()
        &&& forall|i: int|
            0 <= i < self.triggers@.len() ==> self.index@.contains_key(
                #[trigger] self.triggers@[i]@,
            ) && self.index@[self.triggers@[i]@] == self.slots@[i]
        &&& forall|i: int, j: int|
            0 <= i < j < self.triggers@.len() ==> #[trigger] self.triggers@[i]@
                != #[trigger] self.triggers@[j]@
        &&& forall|k: Seq<char>| #[trigger]
            self.index@.contains_key(k) ==> exists|i: int|
                0 <= i < self.triggers@.len() && #[trigger] self.triggers@[i]@ == k
        &&& index_in_bounds(self.index@, self.redirects@.len() as int)
    }

    /// An empty registry.
    pub fn new() -> (r: Registry)
        ensures
            r.wf(),
            r.entries() == Seq::<Redirect>::empty(),
            r.index() == Map::<Seq<char>, usize>::empty(),
    {
        Registry {
            redirects: Vec::new(),
            triggers: Vec::new(),
            slots: Vec::new(),
            index: Ghost(Map::empty()),
        }
    }

    /// A registry without entries has an empty index.
    pub proof fn lemma_empty_index(&self)
        requires
            self.wf(),
            self.entries().len() == 0,
        ensures
            self.index() == Map::<Seq<char>, usize>::empty(),
    {
        assert(self.index@ =~= Map::<Seq<char>, usize>::empty()) by {
            assert forall|k: Seq<char>| !#[trigger] self.index@.contains_key(k) by {
                if self.index@.contains_key(k) {
                    assert(self.index@[k] < 0);
                }
            }
        }
    }

    /// Where in the trigger list `t` stands, if it does.
    fn position(&self, t: &str) -> (r: Option<usize>)
        requires
            self.wf(),
        ensures
            match r {
                None => !self.index@.contains_key(t@),
                Some(i) => i < self.triggers@.len() && self.triggers@[i as int]@ == t@,
            },
    {
        let n = self.triggers.len();
        let mut i: usize = 0;
        while i < n
            invariant
                i <= n,
                n == self.triggers@.len(),
                forall|k: int| 0 <= k < i ==> self.triggers@[k]@ != t@,
            decreases n - i,
        {
            if same_text(self.triggers[i].as_str(), t) {
                return Some(i);
            }
            i = i + 1;
        }
        None
    }
}

/// The index `index` extended with the triggers of `rs`, which stand at
/// positions `base`, `base + 1`, ...; a trigger that repeats is indexed at
/// its last entry.
pub open spec fn index_appended(index: Map<Seq<char>, usize>, rs: Seq<Redirect>, base: int) -> Map<
    Seq<char>,
    usize,
>
    decreases rs.len(),
{
    if rs.len() == 0 {
        index
    } else {
        index_appended(index, rs.drop_last(), base).insert(
            rs.last().trigger@,
            (base + rs.len() - 1) as usize,
        )
    }
}

/// The index of a freshly loaded list: each trigger to the position of its
/// last entry.
pub open spec fn index_of_list(rs: Seq<Redirect>) -> Map<Seq<char>, usize> {
    index_appended(Map::empty(), rs, 0)
}

/// Indexes the trigger of each entry from position `start` on at that
/// position.
fn index_entries_from(reg: &mut Registry, start: usize)
    requires
        old(reg).wf(),
        start <= old(reg).entries().len(),
    ensures
        final(reg).wf(),
        final(reg).entries() == old(reg).entries(),
        final(reg).index() == index_appended(
            old(reg).index(),
            old(reg).entries().subrange(start as int, old(reg).entries().len() as int),
            start as int,
        ),
{
    let ghost entries = reg.entries();
    let n = reg.redirects.len();
    let mut i = start;
    proof {
        assert(entries.subrange(start as int, start as int) =~= Seq::<Redirect>::empty());
    }
    while i < n
        invariant
            start <= i <= n,
            n == entries.len(),
            reg.wf(),
            reg.entries() == entries,
            reg.index() == index_appended(
                old(reg).index(),
                entries.subrange(start as int, i as int),
                start as int,
            ),
        decreases n - i,
    {
        let trigger = reg.redirects[i].trigger.clone();
        insert_bang(reg, trigger, i);
        proof {
            assert(entries.subrange(start as int, i + 1).drop_last() =~= entries.subrange(
                start as int,
                i as int,
            ));
        }
        i = i + 1;
    }
}

/// Initialises the list of redirects by appending `redirects` and indexing
/// each of their triggers at its new position, unless the list already
/// holds entries and `overwrite` is false.
pub fn init_list(reg: &mut Registry, redirects: Vec<Redirect>, overwrite: bool) -> (r: Result<
    (),
    RegistryError,
>)
    requires
        old(reg).wf(),
    ensures
        final(reg).wf(),
        match initialized(old(reg).entries(), redirects@, overwrite) {
            None => r == Err::<(), RegistryError>(RegistryError::AlreadyInitialized)
                && final(reg).entries() == old(reg).entries() && final(reg).index() == old(
                reg,
            ).index(),
            Some(e) => r == Ok::<(), RegistryError>(()) && final(reg).entries() == e
                && final(reg).index() == index_appended(
                old(reg).index(),
                redirects@,
                old(reg).entries().len() as int,
            ),
        },
{
    if !reg.redirects.is_empty() && !overwrite {
        return Err(RegistryError::AlreadyInitialized);
    }
    let ghost added = redirects@;
    let start = reg.redirects.len();
    let mut redirects = redirects;
    reg.redirects.append(&mut redirects);
    assert(index_in_bounds(reg.index@, reg.redirects@.len() as int));
    assert(reg.triggers@ == old(reg).triggers@);
    index_entries_from(reg, start);
    proof {
        assert(reg.entries().subrange(start as int, reg.entries().len() as int) =~= added);
    }
    Ok(())
}

/// Replaces the stored redirects wholesale and rebuilds the index from
/// them: each trigger at the position of its last entry.
pub fn replace_list(reg: &mut Registry, redirects: Vec<Redirect>)
    requires
        old(reg).wf(),
    ensures
        final(reg).wf(),
        final(reg).entries() == redirects@,
        final(reg).index() == index_of_list(redirects@),
{
    *reg = Registry::new();
    let _ = init_list(reg, redirects, false);
    proof {
        assert(Seq::<Redirect>::empty() + redirects@ =~= redirects@);
    }
}

/// A read view of the stored redirects.
pub fn get_redirects(reg: &Registry) -> (r: &[Redirect])
    ensures
        r@ == reg.entries(),
{
    reg.redirects.as_slice()
}

/// Replaces the stored redirects wholesale. The index is left as it is;
/// it is the caller's part to keep it pointing at entries.
pub fn set_redirects(reg: &mut Registry, redirects: Vec<Redirect>)
    requires
        old(reg).wf(),
        index_in_bounds(old(reg).index(), redirects@.len() as int),
    ensures
        final(reg).wf(),
        final(reg).entries() == redirects@,
        final(reg).index() == old(reg).index(),
{
    reg.redirects = redirects;
}

/// Inserts (or updates) a trigger and the position of its entry in the
/// index.
pub fn insert_bang(reg: &mut Registry, bang: String, template_index: usize)
    requires
        old(reg).wf(),
        template_index < old(reg).entries().len(),
    ensures
        final(reg).wf(),
        final(reg).entries() == old(reg).entries(),
        final(reg).index() == old(reg).index().insert(bang@, template_index),
{
    let ghost key = bang@;
    match reg.position(bang.as_str()) {
        Some(i) => {
            reg.slots.set(i, template_index);
            proof {
                reg.index@ = reg.index@.insert(key, template_index);
                assert forall|j: int| 0 <= j < reg.triggers@.len() implies reg.index@.contains_key(
                    #[trigger] reg.triggers@[j]@,
                ) && reg.index@[reg.triggers@[j]@] == reg.slots@[j] by {
                    if j < i {
                        assert(reg.triggers@[j]@ != reg.triggers@[i as int]@);
                    } else if j > i {
                        assert(reg.triggers@[i as int]@ != reg.triggers@[j]@);
                    }
                }
            }
        },
        None => {
            let ghost old_triggers = reg.triggers@;
            reg.triggers.push(bang);
            reg.slots.push(template_index);
            proof {
                reg.index@ = reg.index@.insert(key, template_index);
                assert forall|k: Seq<char>| #[trigger]
                    reg.index@.contains_key(k) implies exists|i: int|
                    0 <= i < reg.triggers@.len() && #[trigger] reg.triggers@[i]@ == k by {
                    if k == key {
                        assert(reg.triggers@[old_triggers.len() as int]@ == k);
                    } else {
                        let i = choose|i: int|
                            0 <= i < old_triggers.len() && #[trigger] old_triggers[i]@ == k;
                        assert(reg.triggers@[i]@ == k);
                    }
                }
            }
        },
    }
}

/// Looks a trigger up in the index.
pub fn get_bang(reg: &Registry, bang: &str) -> (r: Option<usize>)
    requires
        reg.wf(),
    ensures
        r == (if reg.index().contains_key(bang@) {
            Some(reg.index()[bang@])
        } else {
            None
        }),
        r matches Some(i) ==> i < reg.entries().len(),
{
    match reg.position(bang) {
        Some(i) => Some(reg.slots[i]),
        None => None,
    }
}

/// Stores a redirect: in place of the entry of its trigger if the index
/// knows it, else appended with its trigger indexed at the new position.
/// Both changes are made under one exclusive borrow, so no reader sees one
/// without the other.
pub fn update_redirect(reg: &mut Registry, redirect: &Redirect)
    requires
        old(reg).wf(),
    ensures
        final(reg).wf(),
        (final(reg).entries(), final(reg).index()) == upserted(
            old(reg).entries(),
            old(reg).index(),
            *redirect,
        ),
{
    match get_bang(reg, redirect.trigger.as_str()) {
        Some(idx) => {
            reg.redirects.set(idx, redirect.duplicate());
        },
        None => {
            reg.redirects.push(redirect.duplicate());
            let last = reg.redirects.len() - 1;
            insert_bang(reg, redirect.trigger.clone(), last);
        },
    }
}

/// Entries and index after storing each of `rs` in turn.
pub open spec fn upserted_all(
    entries: Seq<Redirect>,
    index: Map<Seq<char>, usize>,
    rs: Seq<Redirect>,
) -> (Seq<Redirect>, Map<Seq<char>, usize>)
    decreases rs.len(),
{
    if rs.len() == 0 {
        (entries, index)
    } else {
        let prev = upserted_all(entries, index, rs.drop_last());
        upserted(prev.0, prev.1, rs.last())
    }
}

/// Once initialising has left entries behind, initialising again without
/// overwriting is refused (and `init_list` then leaves the registry as it
/// was).
pub proof fn lemma_second_init_refused(
    cur: Seq<Redirect>,
    first: Seq<Redirect>,
    second: Seq<Redirect>,
    overwrite: bool,
)
    requires
        initialized(cur, first, overwrite) matches Some(e) && e.len() > 0,
    ensures
        initialized(initialized(cur, first, overwrite)->Some_0, second, false) is None,
{
}

/// Storing a redirect whose trigger is indexed keeps the number of entries;
/// storing one whose trigger is new adds exactly one entry, at the end,
/// and indexes its trigger there.
pub proof fn lemma_upsert_growth(
    entries: Seq<Redirect>,
    index: Map<Seq<char>, usize>,
    r: Redirect,
)
    requires
        index_in_bounds(index, entries.len() as int),
        entries.len() < usize::MAX,
    ensures
        index.contains_key(r.trigger@) ==> upserted(entries, index, r).0.len() == entries.len(),
        !index.contains_key(r.trigger@) ==> {
            let (e, i) = upserted(entries, index, r);
            &&& e.len() == entries.len() + 1
            &&& e[entries.len() as int] == r
            &&& i.contains_key(r.trigger@)
            &&& i[r.trigger@] == entries.len()
        },
        index_in_bounds(upserted(entries, index, r).1, upserted(entries, index, r).0.len() as int),
{
}

/// Loads a whole list of bangs. With `overwrite`, each is stored as
/// [`update_redirect`] does, so a trigger already known has its entry
/// replaced. Without it, the list is loaded into an empty registry, each
/// trigger indexed at its last entry; a registry that holds entries refuses.
pub fn load_redirects(reg: &mut Registry, bangs: Vec<Redirect>, overwrite: bool) -> (r: Result<
    (),
    RegistryError,
>)
    requires
        old(reg).wf(),
    ensures
        final(reg).wf(),
        overwrite ==> r is Ok && (final(reg).entries(), final(reg).index()) == upserted_all(
            old(reg).entries(),
            old(reg).index(),
            bangs@,
        ),
        !overwrite && old(reg).entries().len() > 0 ==> r == Err::<(), RegistryError>(
            RegistryError::AlreadyInitialized,
        ) && final(reg).entries() == old(reg).entries() && final(reg).index() == old(
            reg,
        ).index(),
        !overwrite && old(reg).entries().len() == 0 ==> r is Ok && final(reg).entries()
            == bangs@ && final(reg).index() == index_of_list(bangs@),
{
    let n = bangs.len();
    if overwrite {
        let mut i: usize = 0;
        while i < n
            invariant
                i <= n,
                n == bangs@.len(),
                reg.wf(),
                (reg.entries(), reg.index()) == upserted_all(
                    old(reg).entries(),
                    old(reg).index(),
                    bangs@.subrange(0, i as int),
                ),
            decreases n - i,
        {
            update_redirect(reg, &bangs[i]);
            proof {
                assert(bangs@.subrange(0, i + 1).drop_last() =~= bangs@.subrange(0, i as int));
            }
            i = i + 1;
        }
        proof {
            assert(bangs@.subrange(0, n as int) =~= bangs@);
        }
        Ok(())
    } else {
        if !reg.redirects.is_empty() {
            return Err(RegistryError::AlreadyInitialized);
        }
        proof {
            reg.lemma_empty_index();
            assert(Seq::<Redirect>::empty() + bangs@ =~= bangs@);
        }
        init_list(reg, bangs, false)
    }
}

} // verus!
