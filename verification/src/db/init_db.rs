//! Startup-time registration: which collections need their catalog rows
//! (re)registered, and the SQL text that seeds them.

use vstd::prelude::*;
use crate::util::{CardDetail, CardModel, Collection, CollectionModel, CollectionItem, CollectionsJson, Format, spec_non_excluded};
use crate::sqltext::{spec_escape_quotes, append_escaped};
use vstd::string::StringExecFns;

verus! {

/// A (collection, format) pair that already has rows in storage.
#[derive(Debug, PartialEq, Eq, PartialOrd, Ord, Hash)]
pub struct SchemaCards {
    pub collection_id: String,
    pub format_id: String,
}

impl View for SchemaCards {
    type V = (Seq<char>, Seq<char>);

    open spec fn view(&self) -> (Seq<char>, Seq<char>) {
        (self.collection_id@, self.format_id@)
    }
}

impl DeepView for SchemaCards {
    type V = (Seq<char>, Seq<char>);

    open spec fn deep_view(&self) -> (Seq<char>, Seq<char>) {
        self@
    }
}

pub open spec fn spec_misses_format(
    cid: Seq<char>,
    fmts: Seq<Seq<char>>,
    pairs: Seq<(Seq<char>, Seq<char>)>,
) -> bool {
    exists|i: int| 0 <= i < fmts.len() && !pairs.contains((cid, fmts[i]))
}

/// True when `known_pairs` lacks `collection_id` under one of `formats`.
pub fn misses_format(
    collection_id: &String,
    formats: &Vec<Format>,
    known_pairs: &Vec<SchemaCards>,
) -> (r: bool)
    ensures
        r == spec_misses_format(collection_id@, formats.deep_view(), known_pairs.deep_view()),
{
    let mut i: usize = 0;
    while i < formats.len()
        invariant
            i <= formats@.len(),
            forall|j: int|
                0 <= j < i ==> known_pairs.deep_view().contains(
                    (collection_id@, formats.deep_view()[j]),
                ),
        decreases formats@.len() - i,
    {
        if !contains_pair(known_pairs, collection_id, &formats[i].title) {
            assert(!known_pairs.deep_view().contains(
                (collection_id@, formats.deep_view()[i as int]),
            ));
            return true;
        }
        i = i + 1;
    }
    false
}

/// True when `pairs` holds the (collection, format) pair.
fn contains_pair(pairs: &Vec<SchemaCards>, collection_id: &String, format_id: &String) -> (r:
    bool)
    ensures
        r == pairs.deep_view().contains((collection_id@, format_id@)),
{
    let mut i: usize = 0;
    while i < pairs.len()
        invariant
            i <= pairs@.len(),
            forall|j: int| 0 <= j < i ==> pairs.deep_view()[j] != (collection_id@, format_id@),
        decreases pairs@.len() - i,
    {
        if pairs[i].collection_id == *collection_id && pairs[i].format_id == *format_id {
            assert(pairs.deep_view()[i as int] == (collection_id@, format_id@));
            return true;
        }
        i = i + 1;
    }
    assert(!pairs.deep_view().contains((collection_id@, format_id@)));
    false
}

} // verus!

verus! {

pub open spec fn spec_card_tuple(name: Seq<char>, card: CardModel, fmt: Seq<char>) -> Seq<char> {
    "('"@ + spec_escape_quotes(name) + "', '"@ + spec_escape_quotes(card.set) + "', '"@
        + spec_escape_quotes(card.collector_number) + "', '"@ + fmt + "')"@
}

/// The quoted VALUES tuples for every card under the format `fmt`, comma
/// separated.
pub open spec fn spec_cards_values(name: Seq<char>, cards: Seq<CardModel>, fmt: Seq<char>) -> Seq<
    char,
>
    decreases cards.len(),
{
    if cards.len() == 0 {
        Seq::<char>::empty()
    } else if cards.len() == 1 {
        spec_card_tuple(name, cards[0], fmt)
    } else {
        spec_cards_values(name, cards.drop_last(), fmt) + ","@ + spec_card_tuple(
            name,
            cards.last(),
            fmt,
        )
    }
}

/// The VALUES tuples for every card under every format, format-major,
/// comma separated.
pub open spec fn spec_ratings_values(
    name: Seq<char>,
    formats: Seq<Seq<char>>,
    cards: Seq<CardModel>,
) -> Seq<char>
    decreases formats.len(),
{
    if formats.len() == 0 {
        Seq::<char>::empty()
    } else if formats.len() == 1 {
        spec_cards_values(name, cards, formats[0])
    } else {
        spec_ratings_values(name, formats.drop_last(), cards) + ","@ + spec_cards_values(
            name,
            cards,
            formats.last(),
        )
    }
}

/// Builds the VALUES list that seeds the ratings rows of one collection:
/// one quoted tuple per (card, format) pair, values escaped by doubling
/// single quotes.
#[verifier::loop_isolation(false)]
#[verifier::rlimit(60)]
pub fn generate_ratings_query(formats: &Vec<Format>, collection_item: &CollectionItem) -> (r:
    String)
    ensures
        r@ == spec_ratings_values(
            collection_item.0@,
            formats.deep_view(),
            collection_item.1.deep_view(),
        ),
{
    let name: &String = &collection_item.0;
    let cards: &Vec<CardDetail> = &collection_item.1;
    let ghost fmts = formats.deep_view();
    let ghost cds = cards.deep_view();
    let mut out = String::new();
    let mut fi: usize = 0;
    while fi < formats.len()
        invariant
            fi <= fmts.len(),
            out@ == spec_ratings_values(name@, fmts.take(fi as int), cds),
        decreases fmts.len() - fi,
    {
        if fi > 0 {
            out.append(",");
        }
        let ghost group_start = out@;
        let mut ci: usize = 0;
        while ci < cards.len()
            invariant
                ci <= cds.len(),
                fi < fmts.len(),
                out@ == group_start + spec_cards_values(
                    name@,
                    cds.take(ci as int),
                    fmts[fi as int],
                ),
            decreases cds.len() - ci,
        {
            if ci > 0 {
                out.append(",");
            }
            out.append("('");
            append_escaped(&mut out, name.as_str());
            out.append("', '");
            append_escaped(&mut out, cards[ci].set.as_str());
            out.append("', '");
            append_escaped(&mut out, cards[ci].collector_number.as_str());
            out.append("', '");
            out.append(formats[fi].title.as_str());
            out.append("')");
            proof {
                assert(cds.take(ci + 1 as int).drop_last() =~= cds.take(ci as int));
                assert(cds.take(ci + 1 as int).last() == cds[ci as int]);
                assert(out@ =~= group_start + spec_cards_values(
                    name@,
                    cds.take(ci + 1 as int),
                    fmts[fi as int],
                ));
            }
            ci = ci + 1;
        }
        proof {
            assert(cds.take(cds.len() as int) =~= cds);
            assert(fmts.take(fi + 1 as int).drop_last() =~= fmts.take(fi as int));
            assert(fmts.take(fi + 1 as int).last() == fmts[fi as int]);
            assert(out@ =~= spec_ratings_values(name@, fmts.take(fi + 1 as int), cds));
        }
        fi = fi + 1;
    }
    proof {
        assert(fmts.take(fmts.len() as int) =~= fmts);
    }
    out
}

pub open spec fn spec_insert_ratings_sql(values: Seq<char>) -> Seq<char> {
    "INSERT INTO ratings(collection_id, set_code, card_code, format_id)\nVALUES "@ + values
        + " ON CONFLICT DO NOTHING"@
}

/// The whole idempotent insert statement that seeds one collection's rows.
pub fn insert_ratings_sql(formats: &Vec<Format>, collection_item: &CollectionItem) -> (r: String)
    ensures
        r@ == spec_insert_ratings_sql(
            spec_ratings_values(
                collection_item.0@,
                formats.deep_view(),
                collection_item.1.deep_view(),
            ),
        ),
{
    let values = generate_ratings_query(formats, collection_item);
    let mut out = String::from_str(
        "INSERT INTO ratings(collection_id, set_code, card_code, format_id)\nVALUES ",
    );
    out.append(values.as_str());
    out.append(" ON CONFLICT DO NOTHING");
    proof {
        assert(out@ =~= spec_insert_ratings_sql(values@));
    }
    out
}

/// Whether a collection's rows must be (re)registered at startup: it is
/// still releasing, or some non-excluded format has no rows yet.
pub open spec fn spec_needs_register(
    id: Seq<char>,
    c: CollectionModel,
    fmts: Seq<Seq<char>>,
    pairs: Seq<(Seq<char>, Seq<char>)>,
) -> bool {
    c.releasing || spec_misses_format(id, spec_non_excluded(fmts, c.excluded_formats), pairs)
}

pub open spec fn spec_to_register(
    entries: Seq<(String, Collection)>,
    fmts: Seq<Seq<char>>,
    pairs: Seq<(Seq<char>, Seq<char>)>,
) -> Seq<Seq<char>>
    decreases entries.len(),
{
    if entries.len() == 0 {
        Seq::<Seq<char>>::empty()
    } else {
        spec_to_register(entries.drop_last(), fmts, pairs) + (if spec_needs_register(
            entries.last().0@,
            entries.last().1@,
            fmts,
            pairs,
        ) {
            seq![entries.last().0@]
        } else {
            Seq::<Seq<char>>::empty()
        })
    }
}

/// The ids of the collections whose catalog rows the startup pass must
/// register: the releasing ones, and those with a format missing from
/// storage.
#[verifier::loop_isolation(false)]
pub fn collections_to_register(catalog: &CollectionsJson, known_pairs: &Vec<SchemaCards>) -> (r:
    Vec<String>)
    ensures
        r.deep_view() == spec_to_register(
            catalog.entries@,
            catalog.spec_format_titles(),
            known_pairs.deep_view(),
        ),
{
    let mut out: Vec<String> = Vec::new();
    proof {
        assert(out.deep_view() =~= Seq::<Seq<char>>::empty());
    }
    let mut i: usize = 0;
    while i < catalog.entries.len()
        invariant
            i <= catalog.entries@.len(),
            out.deep_view() == spec_to_register(
                catalog.entries@.take(i as int),
                catalog.spec_format_titles(),
                known_pairs.deep_view(),
            ),
        decreases catalog.entries@.len() - i,
    {
        let c: &Collection = &catalog.entries[i].1;
        let keep = if c.releasing {
            true
        } else {
            let active = catalog.non_excluded_formats(c);
            misses_format(&catalog.entries[i].0, &active, known_pairs)
        };
        if keep {
            out.push(catalog.entries[i].0.clone());
        }
        proof {
            assert(catalog.entries@.take(i + 1 as int).drop_last() =~= catalog.entries@.take(
                i as int,
            ));
            assert(catalog.entries@.take(i + 1 as int).last() == catalog.entries@[i as int]);
            assert(out.deep_view() =~= spec_to_register(
                catalog.entries@.take(i + 1 as int),
                catalog.spec_format_titles(),
                known_pairs.deep_view(),
            ));
        }
        i = i + 1;
    }
    proof {
        assert(catalog.entries@.take(catalog.entries@.len() as int) =~= catalog.entries@);
    }
    out
}

} // verus!
