//! The earlier one-shot seeding pass: the card list shapes the external
//! catalog reports, and the VALUES text for registering them. Fetching the
//! pages is the application's work; the text built from them is verified
//! here.

use vstd::prelude::*;
use crate::sqltext::{spec_escape_quotes, append_escaped};

verus! {

/// A card as the external catalog reports it, with its display name.
pub struct CardDetail {
    pub set: String,
    pub name: String,
    pub collector_number: String,
}

/// One page of cards from the external catalog.
pub struct Cards {
    pub data: Vec<CardDetail>,
}

pub struct SetDetail {
    pub code: String,
    pub name: String,
}

pub struct Sets {
    pub sets: Vec<SetDetail>,
}

/// A collection to seed: a plain set code, or a named draft environment
/// with its card-search query.
pub enum Collection {
    SetCode(&'static str),
    Draft(&'static str, &'static str),
}

pub struct LegacyCardModel {
    pub set: Seq<char>,
    pub name: Seq<char>,
    pub collector_number: Seq<char>,
}

impl View for CardDetail {
    type V = LegacyCardModel;

    open spec fn view(&self) -> LegacyCardModel {
        LegacyCardModel {
            set: self.set@,
            name: self.name@,
            collector_number: self.collector_number@,
        }
    }
}

impl DeepView for CardDetail {
    type V = LegacyCardModel;

    open spec fn deep_view(&self) -> LegacyCardModel {
        self@
    }
}

pub open spec fn spec_legacy_tuple(name: Seq<char>, card: LegacyCardModel) -> Seq<char> {
    "('"@ + spec_escape_quotes(name) + "', '"@ + spec_escape_quotes(card.set) + "', '"@
        + spec_escape_quotes(card.collector_number) + "')"@
}

/// The comma-separated VALUES tuples registering `cards` under the
/// collection `name`.
pub open spec fn spec_legacy_values(name: Seq<char>, cards: Seq<LegacyCardModel>) -> Seq<char>
    decreases cards.len(),
{
    if cards.len() == 0 {
        Seq::<char>::empty()
    } else if cards.len() == 1 {
        spec_legacy_tuple(name, cards[0])
    } else {
        spec_legacy_values(name, cards.drop_last()) + ","@ + spec_legacy_tuple(
            name,
            cards.last(),
        )
    }
}

/// Builds the VALUES tuples for one collection's card list, values escaped
/// by doubling single quotes.
#[verifier::loop_isolation(false)]
#[verifier::rlimit(60)]
pub fn card_values_query(name: &str, cards: &Vec<CardDetail>) -> (r: String)
    ensures
        r@ == spec_legacy_values(name@, cards.deep_view()),
{
    let ghost cds = cards.deep_view();
    let mut out = String::new();
    let mut i: usize = 0;
    while i < cards.len()
        invariant
            i <= cds.len(),
            out@ == spec_legacy_values(name@, cds.take(i as int)),
        decreases cds.len() - i,
    {
        if i > 0 {
            out.append(",");
        }
        out.append("('");
        append_escaped(&mut out, name);
        out.append("', '");
        append_escaped(&mut out, cards[i].set.as_str());
        out.append("', '");
        append_escaped(&mut out, cards[i].collector_number.as_str());
        out.append("')");
        proof {
            assert(cds.take(i + 1 as int).drop_last() =~= cds.take(i as int));
            assert(cds.take(i + 1 as int).last() == cds[i as int]);
            assert(out@ =~= spec_legacy_values(name@, cds.take(i + 1 as int)));
        }
        i = i + 1;
    }
    proof {
        assert(cds.take(cds.len() as int) =~= cds);
    }
    out
}

} // verus!
