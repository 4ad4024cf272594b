//! Buff metadata: id → name, icon and optional sprite file.
//!
//! The table is built once from the decoded reference file and then only
//! read. Entries whose name is missing or empty are not stored; a missing
//! icon becomes the empty string and an empty sprite file becomes none.
//! Search relies on Unicode case folding and trimming from the standard
//! library; their results are named ([`lower_of`], [`trimmed_of`]) and the
//! contracts speak of those names.

use vstd::prelude::*;

use crate::kvmap::KvMap;

verus! {

/// One buff's metadata.
#[derive(Debug, Clone)]
pub struct BuffNameEntry {
    /// Display name; never empty in a stored entry.
    pub name: String,
    /// Icon resource name, possibly empty.
    pub icon: String,
    /// Sprite file, when the buff has one.
    pub sprite_file: Option<String>,
}

/// One buff offered for sprite selection.
#[derive(Debug, Clone)]
pub struct BuffSpriteEntry {
    /// The buff id.
    pub base_id: i32,
    /// Display name.
    pub name: String,
    /// Sprite file name.
    pub sprite_file: String,
}

/// The mathematical image of one stored entry.
pub open spec fn buff_view(e: BuffNameEntry) -> (Seq<char>, Seq<char>, Option<Seq<char>>) {
    (
        e.name@,
        e.icon@,
        match e.sprite_file {
            Some(s) => Some(s@),
            None => None,
        },
    )
}

/// What `str::to_lowercase` yields for the given characters.
pub uninterp spec fn lower_of(s: Seq<char>) -> Seq<char>;

/// What `str::trim` yields for the given characters.
pub uninterp spec fn trimmed_of(s: Seq<char>) -> Seq<char>;

/// Relies on `str::to_lowercase`: Unicode lowercasing, a function of the
/// characters alone; an empty string stays empty.
#[verifier::external_body]
fn to_lowercase_str(s: &str) -> (r: String)
    ensures
        r@ == lower_of(s@),
        s@.len() == 0 ==> r@.len() == 0,
{
    s.to_lowercase()
}

/// Relies on `str::trim`: removes leading and trailing whitespace, a
/// function of the characters alone, never longer than its input.
#[verifier::external_body]
fn trim_str(s: &str) -> (r: &str)
    ensures
        r@ == trimmed_of(s@),
        r@.len() <= s@.len(),
{
    s.trim()
}

/// `needle` occurs contiguously inside `hay`.
pub open spec fn sp_contains_sub(hay: Seq<char>, needle: Seq<char>) -> bool {
    exists|i: int|
        0 <= i <= hay.len() - needle.len() && #[trigger] hay.subrange(i, i + needle.len())
            == needle
}

/// Relies on `str::contains` with a `&str` pattern: substring containment.
#[verifier::external_body]
fn str_contains(hay: &str, needle: &str) -> (r: bool)
    ensures
        r == sp_contains_sub(hay@, needle@),
{
    hay.contains(needle)
}

/// A raw decoded entry: id, name, icon, sprite file.
pub type RawBuffItem = (i32, Option<String>, Option<String>, Option<String>);

/// Whether a raw entry is stored: it has a non-empty name.
pub open spec fn sp_keep(e: RawBuffItem) -> bool {
    match e.1 {
        Some(n) => n@.len() > 0,
        None => false,
    }
}

/// The stored image of a raw entry.
pub open spec fn sp_norm(e: RawBuffItem) -> (Seq<char>, Seq<char>, Option<Seq<char>>) {
    (
        match e.1 {
            Some(n) => n@,
            None => Seq::empty(),
        },
        match e.2 {
            Some(icon) => icon@,
            None => Seq::empty(),
        },
        match e.3 {
            Some(sf) => if sf@.len() == 0 {
                None
            } else {
                Some(sf@)
            },
            None => None,
        },
    )
}

/// The table the raw entries build, later entries replacing earlier ones
/// with the same id.
pub open spec fn sp_build(
    m: Map<i64, (Seq<char>, Seq<char>, Option<Seq<char>>)>,
    raw: Seq<RawBuffItem>,
) -> Map<i64, (Seq<char>, Seq<char>, Option<Seq<char>>)>
    decreases raw.len(),
{
    if raw.len() == 0 {
        m
    } else {
        let m2 = sp_build(m, raw.drop_last());
        let e = raw.last();
        if sp_keep(e) {
            m2.insert(e.0 as i64, sp_norm(e))
        } else {
            m2
        }
    }
}


/// The sprite-selection image of the result entries.
pub open spec fn sp_sprite_result_view(v: Seq<BuffSpriteEntry>) -> Seq<
    (i64, Seq<char>, Seq<char>),
> {
    v.map_values(|e: BuffSpriteEntry| (e.base_id as i64, e.name@, e.sprite_file@))
}

/// The buffs carrying a sprite file, with name and sprite, in table order.
pub open spec fn sp_sprite_list(em: Seq<(i64, (Seq<char>, Seq<char>, Option<Seq<char>>))>) -> Seq<
    (i64, Seq<char>, Seq<char>),
> {
    em.filter(|e: (i64, (Seq<char>, Seq<char>, Option<Seq<char>>))| e.1.2 is Some).map_values(
        |e: (i64, (Seq<char>, Seq<char>, Option<Seq<char>>))| (e.0, e.1.0, e.1.2.unwrap()),
    )
}

/// The search image of the result entries.
pub open spec fn sp_search_result_view(v: Seq<(i32, BuffNameEntry)>) -> Seq<
    (i64, (Seq<char>, Seq<char>, Option<Seq<char>>)),
> {
    v.map_values(|p: (i32, BuffNameEntry)| (p.0 as i64, buff_view(p.1)))
}

/// The table entries whose lowercased name contains `needle`, in order.
pub open spec fn sp_search_list(
    em: Seq<(i64, (Seq<char>, Seq<char>, Option<Seq<char>>))>,
    needle: Seq<char>,
) -> Seq<(i64, (Seq<char>, Seq<char>, Option<Seq<char>>))> {
    em.filter(
        |e: (i64, (Seq<char>, Seq<char>, Option<Seq<char>>))|
            sp_contains_sub(lower_of(e.1.0), needle),
    )
}

/// The buff metadata table, ordered by id.
pub struct BuffTable {
    entries: KvMap<BuffNameEntry>,
}

impl BuffTable {
    /// The underlying table is well-formed, every key fits an `i32`, and no
    /// stored name is empty.
    pub closed spec fn wf(&self) -> bool {
        &&& self.entries.wf()
        &&& forall|i: int|
            0 <= i < self.entries.entries_view().len() ==> i32::MIN <= (
            #[trigger] self.entries.entries_view()[i]).0 <= i32::MAX
    }

    /// id → (name, icon, sprite file).
    pub closed spec fn model(&self) -> Map<i64, (Seq<char>, Seq<char>, Option<Seq<char>>)> {
        Map::new(
            |k: i64| self.entries@.contains_key(k),
            |k: i64| buff_view(self.entries@[k]),
        )
    }

    /// The stored entries in ascending id order.
    pub closed spec fn entries_model(&self) -> Seq<(i64, (Seq<char>, Seq<char>, Option<
        Seq<char>,
    >))> {
        self.entries.entries_view().map_values(
            |e: (i64, BuffNameEntry)| (e.0, buff_view(e.1)),
        )
    }

    /// The entry sequence is sorted by id and denotes the model.
    pub proof fn lemma_entries_model(&self)
        requires
            self.wf(),
        ensures
            forall|i: int, j: int|
                0 <= i < j < self.entries_model().len() ==> (#[trigger] self.entries_model()[i]).0
                    < (#[trigger] self.entries_model()[j]).0,
            forall|i: int|
                0 <= i < self.entries_model().len() ==> self.model().contains_key(
                    (#[trigger] self.entries_model()[i]).0,
                ) && self.model()[self.entries_model()[i].0] == self.entries_model()[i].1,
    {
        self.entries.lemma_entries_view();
        assert forall|i: int, j: int|
            0 <= i < j < self.entries_model().len() implies (#[trigger] self.entries_model()[i]).0
            < (#[trigger] self.entries_model()[j]).0 by {
            let ev = self.entries.entries_view();
            self.entries.lemma_sorted();
            assert(self.entries_model()[i].0 == ev[i].0);
            assert(self.entries_model()[j].0 == ev[j].0);
            assert((ev[i]).0 < (ev[j]).0);
        }
        assert forall|i: int|
            0 <= i < self.entries_model().len() implies self.model().contains_key(
            (#[trigger] self.entries_model()[i]).0,
        ) && self.model()[self.entries_model()[i].0] == self.entries_model()[i].1 by {
            self.entries.lemma_entry_is(i);
        }
    }

    /// An empty table.
    pub fn new() -> (r: Self)
        ensures
            r.wf(),
            r.model() == Map::<i64, (Seq<char>, Seq<char>, Option<Seq<char>>)>::empty(),
    {
        let r = BuffTable { entries: KvMap::new() };
        proof {
            assert(r.model() =~= Map::<i64, (Seq<char>, Seq<char>, Option<Seq<char>>)>::empty());
        }
        r
    }

    /// Builds the table from decoded raw entries: entries without a
    /// non-empty name are skipped, a missing icon becomes empty, an empty
    /// sprite file becomes none.
    pub fn from_entries(raw: &Vec<RawBuffItem>) -> (r: Self)
        ensures
            r.wf(),
            r.model() == sp_build(
                Map::<i64, (Seq<char>, Seq<char>, Option<Seq<char>>)>::empty(),
                raw@,
            ),
    {
        let mut table = BuffTable::new();
        table.reload_cache(raw);
        table
    }

    /// Replaces the whole table with one built from `raw`.
    pub fn reload_cache(&mut self, raw: &Vec<RawBuffItem>)
        ensures
            final(self).wf(),
            final(self).model() == sp_build(
                Map::<i64, (Seq<char>, Seq<char>, Option<Seq<char>>)>::empty(),
                raw@,
            ),
    {
        let mut entries: KvMap<BuffNameEntry> = KvMap::new();
        let n = raw.len();
        let mut i: usize = 0;
        proof {
            assert(Map::new(
                |k: i64| entries_map_contains(entries@, k),
                |k: i64| buff_view(entries@[k]),
            ) =~= sp_build(
                Map::<i64, (Seq<char>, Seq<char>, Option<Seq<char>>)>::empty(),
                raw@.take(0),
            ));
        }
        while i < n
            invariant
                n == raw@.len(),
                i <= n,
                entries.wf(),
                forall|j: int|
                    0 <= j < entries.entries_view().len() ==> i32::MIN <= (
                    #[trigger] entries.entries_view()[j]).0 <= i32::MAX,
                Map::new(
                    |k: i64| entries_map_contains(entries@, k),
                    |k: i64| buff_view(entries@[k]),
                ) == sp_build(
                    Map::<i64, (Seq<char>, Seq<char>, Option<Seq<char>>)>::empty(),
                    raw@.take(i as int),
                ),
            decreases n - i,
        {
            let ghost before = Map::new(
                |k: i64| entries_map_contains(entries@, k),
                |k: i64| buff_view(entries@[k]),
            );
            let item = &raw[i];
            let keep = match &item.1 {
                Some(nm) => !nm.as_str().is_empty(),
                None => false,
            };
            if keep {
                let name = match &item.1 {
                    Some(nm) => nm.clone(),
                    None => String::new(),
                };
                let icon = match &item.2 {
                    Some(ic) => ic.clone(),
                    None => String::new(),
                };
                let sprite_file = match &item.3 {
                    Some(sf) => if sf.as_str().is_empty() {
                        None
                    } else {
                        Some(sf.clone())
                    },
                    None => None,
                };
                let ghost old_entries = entries@;
                entries.insert(item.0 as i64, BuffNameEntry { name, icon, sprite_file });
                proof {
                    assert(Map::new(
                        |k: i64| entries_map_contains(entries@, k),
                        |k: i64| buff_view(entries@[k]),
                    ) =~= before.insert(raw@[i as int].0 as i64, sp_norm(raw@[i as int])));
                }
            }
            proof {
                assert(raw@.take(i + 1).drop_last() =~= raw@.take(i as int));
                assert(raw@.take(i + 1).last() == raw@[i as int]);
                assert(Map::new(
                    |k: i64| entries_map_contains(entries@, k),
                    |k: i64| buff_view(entries@[k]),
                ) =~= sp_build(
                    Map::<i64, (Seq<char>, Seq<char>, Option<Seq<char>>)>::empty(),
                    raw@.take(i + 1),
                ));
            }
            i = i + 1;
        }
        proof {
            assert(raw@.take(n as int) =~= raw@);
        }
        self.entries = entries;
        proof {
            assert(self.model() =~= sp_build(
                Map::<i64, (Seq<char>, Seq<char>, Option<Seq<char>>)>::empty(),
                raw@,
            ));
        }
    }

    /// The display name stored for `buff_id`.
    pub fn lookup_name(&self, buff_id: i32) -> (r: Option<String>)
        requires
            self.wf(),
        ensures
            match r {
                Some(s) => self.model().contains_key(buff_id as i64) && s@ == (self.model()[buff_id as i64]).0,
                None => !self.model().contains_key(buff_id as i64),
            },
    {
        match self.entries.get(buff_id as i64) {
            Some(e) => Some(e.name.clone()),
            None => None,
        }
    }

    /// Whether `buff_id` is in the table.
    pub fn is_valid(&self, buff_id: i32) -> (r: bool)
        requires
            self.wf(),
        ensures
            r == self.model().contains_key(buff_id as i64),
    {
        self.entries.contains(buff_id as i64)
    }

    /// The sprite file stored for `buff_id`, when it has one.
    pub fn lookup_sprite(&self, buff_id: i32) -> (r: Option<String>)
        requires
            self.wf(),
        ensures
            match r {
                Some(s) => self.model().contains_key(buff_id as i64) && (self.model()[buff_id as i64]).2 == Some(s@),
                None => !self.model().contains_key(buff_id as i64) || (self.model()[buff_id as i64]).2 is None,
            },
    {
        match self.entries.get(buff_id as i64) {
            Some(e) => match &e.sprite_file {
                Some(sf) => Some(sf.clone()),
                None => None,
            },
            None => None,
        }
    }

    /// All buffs that carry a sprite file, in ascending id order.
    pub fn get_buffs_with_sprites(&self) -> (r: Vec<BuffSpriteEntry>)
        requires
            self.wf(),
        ensures
            sp_sprite_result_view(r@) == sp_sprite_list(self.entries_model()),
    {
        let mut out: Vec<BuffSpriteEntry> = Vec::new();
        let n = self.entries.len();
        let mut i: usize = 0;
        proof {
            reveal(Seq::filter);
            assert(self.entries_model().take(0) =~= Seq::<(i64, (Seq<char>, Seq<char>, Option<
                Seq<char>,
            >))>::empty());
            assert(sp_sprite_result_view(out@) =~= sp_sprite_list(self.entries_model().take(0)));
        }
        while i < n
            invariant
                self.wf(),
                n == self.entries.entries_view().len(),
                i <= n,
                sp_sprite_result_view(out@) == sp_sprite_list(self.entries_model().take(i as int)),
            decreases n - i,
        {
            let entry = self.entries.entry_at(i);
            let ghost before = out@;
            let ghost em_i = self.entries_model()[i as int];
            proof {
                assert(self.entries.entries_view()[i as int] == *entry);
                assert(i32::MIN <= entry.0 <= i32::MAX);
                assert(em_i == (entry.0, buff_view(entry.1)));
            }
            match &entry.1.sprite_file {
                Some(sf) => {
                    out.push(
                        BuffSpriteEntry {
                            base_id: entry.0 as i32,
                            name: entry.1.name.clone(),
                            sprite_file: sf.clone(),
                        },
                    );
                },
                None => {},
            }
            proof {
                reveal(Seq::filter);
                assert(self.entries_model().take(i + 1).drop_last() =~= self.entries_model().take(
                    i as int,
                ));
                assert(self.entries_model().take(i + 1).last() == em_i);
                if em_i.1.2 is Some {
                    assert(out@ =~= before.push(out@.last()));
                    assert(out@.last().base_id as i64 == entry.0);
                    assert(out@.last().name@ == em_i.1.0);
                    assert(out@.last().sprite_file@ == em_i.1.2.unwrap());
                    assert(sp_sprite_result_view(out@) =~= sp_sprite_result_view(before).push(
                        (em_i.0, em_i.1.0, em_i.1.2.unwrap()),
                    ));
                    assert(sp_sprite_list(self.entries_model().take(i + 1)) =~= sp_sprite_list(
                        self.entries_model().take(i as int),
                    ).push((em_i.0, em_i.1.0, em_i.1.2.unwrap())));
                } else {
                    assert(sp_sprite_list(self.entries_model().take(i + 1)) == sp_sprite_list(
                        self.entries_model().take(i as int),
                    ));
                }
            }
            i = i + 1;
        }
        proof {
            assert(self.entries_model().take(n as int) =~= self.entries_model());
        }
        out
    }

    /// The buffs whose lowercased name contains the trimmed, lowercased
    /// keyword, in ascending id order, at most `limit` of them; an empty
    /// keyword matches nothing.
    pub fn search_buffs_by_name(&self, keyword: &str, limit: usize) -> (r: Vec<
        (i32, BuffNameEntry),
    >)
        requires
            self.wf(),
        ensures
            ({
                let needle = lower_of(trimmed_of(keyword@));
                let filtered = sp_search_list(self.entries_model(), needle);
                if needle.len() == 0 {
                    r@.len() == 0
                } else {
                    sp_search_result_view(r@) == (if filtered.len() > limit {
                        filtered.take(limit as int)
                    } else {
                        filtered
                    })
                }
            }),
    {
        let trimmed = trim_str(keyword);
        let needle = to_lowercase_str(trimmed);
        if needle.as_str().is_empty() {
            return Vec::new();
        }
        let ghost needle_spec = lower_of(trimmed_of(keyword@));
        let mut out: Vec<(i32, BuffNameEntry)> = Vec::new();
        let n = self.entries.len();
        let mut i: usize = 0;
        proof {
            reveal(Seq::filter);
            assert(self.entries_model().take(0) =~= Seq::<(i64, (Seq<char>, Seq<char>, Option<
                Seq<char>,
            >))>::empty());
            assert(sp_search_result_view(out@) =~= sp_search_list(
                self.entries_model().take(0),
                needle_spec,
            ));
        }
        while i < n
            invariant
                self.wf(),
                n == self.entries.entries_view().len(),
                i <= n,
                needle@ == needle_spec,
                sp_search_result_view(out@) == sp_search_list(
                    self.entries_model().take(i as int),
                    needle_spec,
                ),
            decreases n - i,
        {
            let entry = self.entries.entry_at(i);
            let ghost before = out@;
            let ghost em_i = self.entries_model()[i as int];
            proof {
                assert(self.entries.entries_view()[i as int] == *entry);
                assert(i32::MIN <= entry.0 <= i32::MAX);
                assert(em_i == (entry.0, buff_view(entry.1)));
            }
            let lowered = to_lowercase_str(entry.1.name.as_str());
            if str_contains(lowered.as_str(), needle.as_str()) {
                let copied = BuffNameEntry {
                    name: entry.1.name.clone(),
                    icon: entry.1.icon.clone(),
                    sprite_file: match &entry.1.sprite_file {
                        Some(sf) => Some(sf.clone()),
                        None => None,
                    },
                };
                out.push((entry.0 as i32, copied));
            }
            proof {
                reveal(Seq::filter);
                assert(self.entries_model().take(i + 1).drop_last() =~= self.entries_model().take(
                    i as int,
                ));
                assert(self.entries_model().take(i + 1).last() == em_i);
                if sp_contains_sub(lower_of(em_i.1.0), needle_spec) {
                    assert(out@ =~= before.push(out@.last()));
                    assert(out@.last().0 as i64 == entry.0);
                    assert(buff_view(out@.last().1) == em_i.1);
                    assert(sp_search_result_view(out@) =~= sp_search_result_view(before).push(
                        em_i,
                    ));
                    assert(sp_search_list(self.entries_model().take(i + 1), needle_spec)
                        =~= sp_search_list(self.entries_model().take(i as int), needle_spec).push(
                        em_i,
                    ));
                } else {
                    assert(sp_search_list(self.entries_model().take(i + 1), needle_spec)
                        == sp_search_list(self.entries_model().take(i as int), needle_spec));
                }
            }
            i = i + 1;
        }
        proof {
            assert(self.entries_model().take(n as int) =~= self.entries_model());
        }
        let ghost full = sp_search_result_view(out@);
        if out.len() > limit {
            out.truncate(limit);
            proof {
                assert(sp_search_result_view(out@) =~= full.take(limit as int));
            }
        }
        out
    }
}

/// Whether the map holds `k`; spelled out so map closures can name it.
pub open spec fn entries_map_contains<V>(m: Map<i64, V>, k: i64) -> bool {
    m.contains_key(k)
}

} // verus!
