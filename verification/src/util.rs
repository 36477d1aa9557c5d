//! The catalog: collections, formats and the startup-loaded configuration
//! snapshot that every request consults. Read-only after load.

use vstd::prelude::*;

verus! {

/// A card as the external catalog reports it: its set code and its
/// collector number within the set.
pub struct CardDetail {
    pub set: String,
    pub collector_number: String,
}

/// One page of cards from the external catalog.
pub struct Cards {
    pub data: Vec<CardDetail>,
}

pub struct SetDetail {
    pub code: String,
    pub name: String,
}

pub struct Sets {
    pub sets: Vec<SetDetail>,
}

/// A rating dimension; every (collection, non-excluded format) pair is a
/// valid rating axis.
pub struct Format {
    pub title: String,
}

/// A named grouping of cards: display order of its sets, formats excluded
/// from it, and whether it is still gaining new cards.
pub struct Collection {
    pub title: String,
    pub scryfall_query: String,
    pub set_order: Vec<String>,
    pub excluded_formats: Vec<String>,
    pub releasing: bool,
}

/// The whole configuration snapshot: the format list and the collections,
/// keyed by collection id.
pub struct CollectionsJson {
    pub latest: String,
    pub formats: Vec<Format>,
    pub entries: Vec<(String, Collection)>,
}

/// A collection id together with the cards that belong to it.
pub type CollectionItem = (String, Vec<CardDetail>);

pub struct CardModel {
    pub set: Seq<char>,
    pub collector_number: Seq<char>,
}

impl View for CardDetail {
    type V = CardModel;

    open spec fn view(&self) -> CardModel {
        CardModel { set: self.set@, collector_number: self.collector_number@ }
    }
}

impl View for Format {
    type V = Seq<char>;

    open spec fn view(&self) -> Seq<char> {
        self.title@
    }
}

impl DeepView for Format {
    type V = Seq<char>;

    open spec fn deep_view(&self) -> Seq<char> {
        self.title@
    }
}

impl DeepView for CardDetail {
    type V = CardModel;

    open spec fn deep_view(&self) -> CardModel {
        self@
    }
}

pub struct CollectionModel {
    pub title: Seq<char>,
    pub scryfall_query: Seq<char>,
    pub set_order: Seq<Seq<char>>,
    pub excluded_formats: Seq<Seq<char>>,
    pub releasing: bool,
}

impl View for Collection {
    type V = CollectionModel;

    open spec fn view(&self) -> CollectionModel {
        CollectionModel {
            title: self.title@,
            scryfall_query: self.scryfall_query@,
            set_order: self.set_order.deep_view(),
            excluded_formats: self.excluded_formats.deep_view(),
            releasing: self.releasing,
        }
    }
}

/// True when `s` occurs in `v`.
pub fn contains_string(v: &Vec<String>, s: &String) -> (r: bool)
    ensures
        r == v.deep_view().contains(s@),
{
    let mut i: usize = 0;
    while i < v.len()
        invariant
            i <= v@.len(),
            forall|j: int| 0 <= j < i ==> v.deep_view()[j] != s@,
        decreases v@.len() - i,
    {
        if v[i] == *s {
            assert(v.deep_view()[i as int] == s@);
            return true;
        }
        i = i + 1;
    }
    assert(!v.deep_view().contains(s@));
    false
}

/// The first index in `entries` whose id is `id`.
pub open spec fn spec_collection_index(entries: Seq<(String, Collection)>, id: Seq<char>) -> int
    decreases entries.len(),
{
    if entries.len() == 0 {
        0
    } else if entries[0].0@ == id {
        0
    } else {
        1 + spec_collection_index(entries.drop_first(), id)
    }
}

pub open spec fn spec_has_collection(entries: Seq<(String, Collection)>, id: Seq<char>) -> bool {
    exists|i: int| 0 <= i < entries.len() && entries[i].0@ == id
}

proof fn lemma_collection_index(entries: Seq<(String, Collection)>, id: Seq<char>)
    requires
        spec_has_collection(entries, id),
    ensures
        0 <= spec_collection_index(entries, id) < entries.len(),
        entries[spec_collection_index(entries, id)].0@ == id,
        forall|j: int|
            0 <= j < spec_collection_index(entries, id) ==> entries[j].0@ != id,
    decreases entries.len(),
{
    if entries.len() == 0 {
    } else if entries[0].0@ == id {
    } else {
        let rest = entries.drop_first();
        assert(spec_has_collection(rest, id)) by {
            let i = choose|i: int| 0 <= i < entries.len() && entries[i].0@ == id;
            assert(rest[i - 1].0@ == id);
        }
        lemma_collection_index(rest, id);
        assert(forall|j: int|
            1 <= j < entries.len() ==> entries[j] == rest[j - 1]);
    }
}

impl CollectionsJson {
    pub open spec fn spec_format_titles(&self) -> Seq<Seq<char>> {
        self.formats.deep_view()
    }

    /// A sound configuration: collection ids and format titles are unique.
    pub open spec fn wf(&self) -> bool {
        &&& forall|i: int, j: int|
            0 <= i < j < self.entries@.len() ==> self.entries@[i].0@ != self.entries@[j].0@
        &&& forall|i: int, j: int|
            0 <= i < j < self.formats@.len()
                ==> self.spec_format_titles()[i] != self.spec_format_titles()[j]
    }

    /// True when `format_id` names a known format.
    pub fn is_known_format(&self, format_id: &String) -> (r: bool)
        ensures
            r == self.spec_format_titles().contains(format_id@),
    {
        let mut i: usize = 0;
        while i < self.formats.len()
            invariant
                i <= self.formats@.len(),
                forall|j: int| 0 <= j < i ==> self.spec_format_titles()[j] != format_id@,
            decreases self.formats@.len() - i,
        {
            if self.formats[i].title == *format_id {
                assert(self.spec_format_titles()[i as int] == format_id@);
                return true;
            }
            i = i + 1;
        }
        assert(!self.spec_format_titles().contains(format_id@));
        false
    }

    /// The number of known formats; the admission gate's ceiling.
    pub fn format_count(&self) -> (n: usize)
        ensures
            n == self.formats@.len(),
    {
        self.formats.len()
    }

    /// The collection registered under `id`, if any.
    pub fn get_collection(&self, id: &String) -> (r: Option<&Collection>)
        ensures
            match r {
                Some(c) => spec_has_collection(self.entries@, id@) && *c
                    == self.entries@[spec_collection_index(self.entries@, id@)].1,
                None => !spec_has_collection(self.entries@, id@),
            },
    {
        let mut i: usize = 0;
        while i < self.entries.len()
            invariant
                i <= self.entries@.len(),
                forall|j: int| 0 <= j < i ==> self.entries@[j].0@ != id@,
            decreases self.entries@.len() - i,
        {
            if self.entries[i].0 == *id {
                proof {
                    assert(spec_has_collection(self.entries@, id@));
                    lemma_collection_index(self.entries@, id@);
                    assert(spec_collection_index(self.entries@, id@) == i as int);
                }
                return Some(&self.entries[i].1);
            }
            i = i + 1;
        }
        assert(!spec_has_collection(self.entries@, id@));
        None
    }

    /// The formats a collection actually carries: the known formats minus
    /// the collection's excluded ones.
    pub fn non_excluded_formats(&self, collection: &Collection) -> (r: Vec<Format>)
        ensures
            r.deep_view() == spec_non_excluded(
                self.spec_format_titles(),
                collection@.excluded_formats,
            ),
    {
        let mut out: Vec<Format> = Vec::new();
        let mut i: usize = 0;
        while i < self.formats.len()
            invariant
                i <= self.formats@.len(),
                out.deep_view() == spec_non_excluded(
                    self.spec_format_titles().take(i as int),
                    collection@.excluded_formats,
                ),
            decreases self.formats@.len() - i,
        {
            let excluded = contains_string(&collection.excluded_formats, &self.formats[i].title);
            proof {
                assert(self.spec_format_titles().take(i + 1 as int).drop_last() =~= self
                    .spec_format_titles()
                    .take(i as int));
                assert(self.spec_format_titles().take(i + 1 as int).last() == self
                    .spec_format_titles()[i as int]);
            }
            if !excluded {
                let f = Format { title: self.formats[i].title.clone() };
                out.push(f);
            }
            proof {
                assert(out.deep_view() =~= spec_non_excluded(
                    self.spec_format_titles().take(i + 1 as int),
                    collection@.excluded_formats,
                ));
            }
            i = i + 1;
        }
        proof {
            assert(self.spec_format_titles().take(self.formats@.len() as int) =~= self
                .spec_format_titles());
        }
        out
    }
}

/// The format titles of `titles` that are not in `excluded`, in order.
pub open spec fn spec_non_excluded(titles: Seq<Seq<char>>, excluded: Seq<Seq<char>>) -> Seq<
    Seq<char>,
>
    decreases titles.len(),
{
    if titles.len() == 0 {
        Seq::<Seq<char>>::empty()
    } else {
        spec_non_excluded(titles.drop_last(), excluded) + (if excluded.contains(titles.last()) {
            Seq::<Seq<char>>::empty()
        } else {
            seq![titles.last()]
        })
    }
}


} // verus!
