//! The write path: validation, admission and the optimistic
//! increment-then-backfill protocol of a rating submission, and the
//! grouping of rating rows for the read path.

use vstd::prelude::*;
use vstd::string::StrSliceExecFns;
use vstd::string::StringExecFns;
use crate::db::store::{
    spec_has_entry, spec_increment, spec_insert_entries, spec_counters_in_range,
    lemma_insert_preserves_range, RatingStore, RatingsValue, SchemaModel, SchemaRatings,
};
use crate::gate::{spec_permit, RateLimitGate};
use crate::util::{
    contains_string, spec_has_collection, spec_collection_index, spec_non_excluded, CardDetail,
    CardModel, Collection, CollectionsJson,
};

verus! {

/// The query parameters naming a collection.
pub struct RatingsCollectionExtractor {
    pub collection_id: String,
}

/// The query parameters of a rating submission.
pub struct RatingsPostExtractor {
    pub rating: String,
    pub card_code: String,
    pub set_code: String,
    pub format_id: String,
}

/// Why a submission was turned away. Client errors carry their specific
/// reason; the admission rejection stands apart so callers can back off.
#[derive(Clone, Copy, PartialEq, Eq, Structural, Debug)]
pub enum RejectReason {
    InvalidRating,
    TooManyRequests,
    UnknownFormat,
    UnknownCollection,
    SetNotInCollection,
}

/// What a submission came to: accepted (possibly as a silent no-op),
/// rejected with a reason, or failed on a storage error.
#[derive(Clone, Copy, PartialEq, Eq, Structural, Debug)]
pub enum SubmitOutcome {
    Accepted,
    Rejected(RejectReason),
    Failed,
}

pub open spec fn spec_parse_rating(s: Seq<char>) -> Option<RatingsValue> {
    if s.len() != 1 {
        None
    } else if s[0] == '1' {
        Some(RatingsValue::Rated1)
    } else if s[0] == '2' {
        Some(RatingsValue::Rated2)
    } else if s[0] == '3' {
        Some(RatingsValue::Rated3)
    } else if s[0] == '4' {
        Some(RatingsValue::Rated4)
    } else if s[0] == '5' {
        Some(RatingsValue::Rated5)
    } else {
        None
    }
}

/// Reads one of the five discrete rating levels; anything else is the
/// invalid-rating client error.
pub fn parse_rating(rating_raw: &String) -> (r: Result<RatingsValue, RejectReason>)
    ensures
        match r {
            Ok(v) => spec_parse_rating(rating_raw@) == Some(v),
            Err(e) => spec_parse_rating(rating_raw@) is None && e == RejectReason::InvalidRating,
        },
{
    let s = rating_raw.as_str();
    if s.unicode_len() != 1 {
        return Err(RejectReason::InvalidRating);
    }
    let c = s.get_char(0);
    if c == '1' {
        Ok(RatingsValue::Rated1)
    } else if c == '2' {
        Ok(RatingsValue::Rated2)
    } else if c == '3' {
        Ok(RatingsValue::Rated3)
    } else if c == '4' {
        Ok(RatingsValue::Rated4)
    } else if c == '5' {
        Ok(RatingsValue::Rated5)
    } else {
        Err(RejectReason::InvalidRating)
    }
}

pub open spec fn spec_is_digit(c: char) -> bool {
    48 <= c as int && c as int <= 57
}

/// The digits of `s`, in order, everything else dropped.
pub open spec fn spec_digits_of(s: Seq<char>) -> Seq<char>
    decreases s.len(),
{
    if s.len() == 0 {
        Seq::<char>::empty()
    } else {
        spec_digits_of(s.drop_last()) + (if spec_is_digit(s.last()) {
            seq![s.last()]
        } else {
            Seq::<char>::empty()
        })
    }
}

/// The number a digit string denotes.
pub open spec fn spec_num_val(s: Seq<char>) -> nat
    decreases s.len(),
{
    if s.len() == 0 {
        0
    } else {
        spec_num_val(s.drop_last()) * 10 + (s.last() as int - 48) as nat
    }
}

/// The plausibility filter for a card code seen during a release window:
/// its digit sequence (the whole code if numeric) must be non-empty and
/// denote a number under one thousand.
pub open spec fn spec_code_plausible(s: Seq<char>) -> bool {
    spec_digits_of(s).len() > 0 && spec_num_val(spec_digits_of(s)) < 1000
}

/// True when the card code plausibly names a real, recently added card:
/// numeric codes under a small threshold, or non-numeric codes (collector
/// numbers come with prefixes and markers) whose stripped digit sequence
/// is under it.
#[verifier::loop_isolation(false)]
pub fn card_code_under_1000ish(card_code: &str) -> (r: bool)
    ensures
        r == spec_code_plausible(card_code@),
{
    let len = card_code.unicode_len();
    let mut digits: usize = 0;
    let mut val: u64 = 0;
    let mut i: usize = 0;
    while i < len
        invariant
            i <= len,
            len == card_code@.len(),
            digits <= i,
            digits == spec_digits_of(card_code@.take(i as int)).len(),
            (val == spec_num_val(spec_digits_of(card_code@.take(i as int))) && val < 1000) || (
            val == 1000 && spec_num_val(spec_digits_of(card_code@.take(i as int))) >= 1000),
        decreases len - i,
    {
        let c = card_code.get_char(i);
        let u = c as u32;
        proof {
            assert(card_code@.take(i + 1 as int).drop_last() =~= card_code@.take(i as int));
            assert(card_code@.take(i + 1 as int).last() == card_code@[i as int]);
        }
        if 48 <= u && u <= 57 {
            let d = (u - 48) as u64;
            let ghost dig_prev = spec_digits_of(card_code@.take(i as int));
            proof {
                assert(spec_digits_of(card_code@.take(i + 1 as int)) =~= dig_prev.push(
                    card_code@[i as int],
                ));
                assert(spec_digits_of(card_code@.take(i + 1 as int)).drop_last() =~= dig_prev);
            }
            digits = digits + 1;
            let next = val * 10 + d;
            if next >= 1000 {
                val = 1000;
            } else {
                val = next;
            }
        } else {
            proof {
                assert(spec_digits_of(card_code@.take(i + 1 as int)) =~= spec_digits_of(
                    card_code@.take(i as int),
                ));
            }
        }
        i = i + 1;
    }
    proof {
        assert(card_code@.take(len as int) =~= card_code@);
    }
    digits > 0 && val < 1000
}

/// The throttling key of a submission: the caller's identity and the
/// addressed tuple, without the rating value, so that repeated attempts
/// with different ratings are throttled together.
pub fn fingerprint(
    client: &str,
    collection_id: &str,
    set_code: &str,
    card_code: &str,
    format_id: &str,
) -> (r: String)
    ensures
        r@ == client@ + collection_id@ + set_code@ + card_code@ + format_id@,
{
    let mut out = String::from_str(client);
    out.append(collection_id);
    out.append(set_code);
    out.append(card_code);
    out.append(format_id);
    proof {
        assert(out@ =~= client@ + collection_id@ + set_code@ + card_code@ + format_id@);
    }
    out
}

/// What an admitted submission comes to, and what the store holds after
/// it: the optimistic increment, and on an unknown tuple the validation
/// chain and the single backfill-and-retry, exactly as the write path
/// performs them.
pub open spec fn spec_submit(
    rows0: Seq<crate::db::store::EntryModel>,
    catalog: CollectionsJson,
    cid: Seq<char>,
    fid: Seq<char>,
    sc: Seq<char>,
    cc: Seq<char>,
    v: RatingsValue,
) -> (SubmitOutcome, Seq<crate::db::store::EntryModel>) {
    if spec_has_entry(rows0, cid, sc, cc, fid) {
        (SubmitOutcome::Accepted, spec_increment(rows0, v, cid, cc, sc, fid))
    } else if !catalog.spec_format_titles().contains(fid) {
        (SubmitOutcome::Rejected(RejectReason::UnknownFormat), rows0)
    } else if !spec_has_collection(catalog.entries@, cid) {
        (SubmitOutcome::Rejected(RejectReason::UnknownCollection), rows0)
    } else {
        let c = catalog.entries@[spec_collection_index(catalog.entries@, cid)].1@;
        if !c.set_order.contains(sc) {
            (SubmitOutcome::Rejected(RejectReason::SetNotInCollection), rows0)
        } else if !c.releasing {
            (SubmitOutcome::Accepted, rows0)
        } else if !spec_code_plausible(cc) {
            (SubmitOutcome::Accepted, rows0)
        } else {
            let active = spec_non_excluded(catalog.spec_format_titles(), c.excluded_formats);
            let inserted = spec_insert_entries(
                rows0,
                cid,
                active,
                seq![CardModel { set: sc, collector_number: cc }],
            );
            (SubmitOutcome::Accepted, spec_increment(inserted, v, cid, cc, sc, fid))
        }
    }
}

/// One rating submission, end to end: rating validation, one atomic
/// admission check, the optimistic increment, and on an unknown tuple the
/// validation chain with at most one backfill and one retried increment.
/// Validation failures short-circuit before any write; reconciliation
/// anomalies (a non-releasing collection, an implausible code, a lost
/// race on the retry) are absorbed as accepted no-ops.
pub fn submit_rating(
    gate: &mut RateLimitGate,
    store: &mut RatingStore,
    catalog: &CollectionsJson,
    client: &String,
    collection_id: &String,
    format_id: &String,
    set_code: &String,
    card_code: &String,
    rating_raw: &String,
) -> (out: SubmitOutcome)
    requires
        old(gate).wf(),
        spec_counters_in_range(old(store).spec_rows()),
    ensures
        final(gate).wf(),
        final(gate).cap() == old(gate).cap(),
        old(store).wf() ==> final(store).wf(),
        ({
            let fp = client@ + collection_id@ + set_code@ + card_code@ + format_id@;
            let ceiling = catalog.formats@.len() as usize;
            match spec_parse_rating(rating_raw@) {
                Option::None => out == SubmitOutcome::Rejected(RejectReason::InvalidRating)
                    && final(store).spec_rows() == old(store).spec_rows() && final(gate).entries()
                    == old(gate).entries(),
                Option::Some(v) => {
                    let (m1, passed) = spec_permit(
                        old(gate).entries(),
                        old(gate).cap(),
                        fp,
                        ceiling,
                    );
                    &&& final(gate).entries() == m1
                    &&& if !passed {
                        out == SubmitOutcome::Rejected(RejectReason::TooManyRequests)
                            && final(store).spec_rows() == old(store).spec_rows()
                    } else {
                        (out, final(store).spec_rows()) == spec_submit(
                            old(store).spec_rows(),
                            *catalog,
                            collection_id@,
                            format_id@,
                            set_code@,
                            card_code@,
                            v,
                        )
                    }
                },
            }
        }),
{
    let rating = match parse_rating(rating_raw) {
        Ok(v) => v,
        Err(e) => { return SubmitOutcome::Rejected(e) },
    };
    let fp = fingerprint(
        client.as_str(),
        collection_id.as_str(),
        set_code.as_str(),
        card_code.as_str(),
        format_id.as_str(),
    );
    let ceiling = catalog.format_count();
    if !gate.permit(&fp, ceiling) {
        return SubmitOutcome::Rejected(RejectReason::TooManyRequests);
    }
    let affected = store.increment_rating(&rating, collection_id, card_code, set_code, format_id);
    if affected > 0 {
        return SubmitOutcome::Accepted;
    }
    if !catalog.is_known_format(format_id) {
        return SubmitOutcome::Rejected(RejectReason::UnknownFormat);
    }
    let collection = match catalog.get_collection(collection_id) {
        None => { return SubmitOutcome::Rejected(RejectReason::UnknownCollection) },
        Some(c) => c,
    };
    if !contains_string(&collection.set_order, set_code) {
        return SubmitOutcome::Rejected(RejectReason::SetNotInCollection);
    }
    if collection.releasing && card_code_under_1000ish(card_code.as_str()) {
        let active = catalog.non_excluded_formats(collection);
        let card = CardDetail { set: set_code.clone(), collector_number: card_code.clone() };
        let mut cards: Vec<CardDetail> = Vec::new();
        cards.push(card);
        proof {
            assert(cards.deep_view() =~= seq![
                CardModel { set: set_code@, collector_number: card_code@ },
            ]);
            lemma_insert_preserves_range(
                store.spec_rows(),
                collection_id@,
                active.deep_view(),
                cards.deep_view(),
            );
        }
        store.insert_catalog_entries(collection_id, &active, &cards);
        let _ = store.increment_rating(&rating, collection_id, card_code, set_code, format_id);
    }
    SubmitOutcome::Accepted
}

} // verus!

verus! {

/// One card of the read path's response: its rows, one per format.
pub struct CardGetResponse {
    pub set_code: String,
    pub card_code: String,
    pub rating_by_format: Vec<SchemaRatings>,
}

pub struct CardGroupModel {
    pub set_code: Seq<char>,
    pub card_code: Seq<char>,
    pub rating_by_format: Seq<SchemaModel>,
}

impl View for CardGetResponse {
    type V = CardGroupModel;

    open spec fn view(&self) -> CardGroupModel {
        CardGroupModel {
            set_code: self.set_code@,
            card_code: self.card_code@,
            rating_by_format: self.rating_by_format.deep_view(),
        }
    }
}

impl DeepView for CardGetResponse {
    type V = CardGroupModel;

    open spec fn deep_view(&self) -> CardGroupModel {
        self@
    }
}

/// The whole read-path response for one collection.
pub struct RatingsGetResponse {
    pub collection_id: String,
    pub collection_info: Collection,
    pub ratings: Vec<CardGetResponse>,
}

pub open spec fn spec_same_card(s: SchemaModel, g: CardGroupModel) -> bool {
    s.set_code == g.set_code && s.card_code == g.card_code
}

/// Rows folded into card groups: a row joins the last group when it
/// addresses the same (set, card), and opens a new group otherwise.
pub open spec fn spec_group_rows(v: Seq<SchemaModel>) -> Seq<CardGroupModel>
    decreases v.len(),
{
    if v.len() == 0 {
        Seq::<CardGroupModel>::empty()
    } else {
        let rest = spec_group_rows(v.drop_last());
        let y = v.last();
        if rest.len() > 0 && spec_same_card(y, rest.last()) {
            rest.update(
                rest.len() - 1,
                CardGroupModel {
                    rating_by_format: rest.last().rating_by_format.push(y),
                    ..rest.last()
                },
            )
        } else {
            rest.push(
                CardGroupModel {
                    set_code: y.set_code,
                    card_code: y.card_code,
                    rating_by_format: seq![y],
                },
            )
        }
    }
}

/// Groups consecutive rows of one card into a single response entry; rows
/// arrive ordered by the read path, so one card's formats stand adjacent.
#[verifier::loop_isolation(false)]
#[verifier::rlimit(60)]
pub fn parse_schemas(v: Vec<SchemaRatings>) -> (r: Vec<CardGetResponse>)
    ensures
        r.deep_view() == spec_group_rows(v.deep_view()),
{
    let ghost orig = v.deep_view();
    let mut rest = v;
    let mut out: Vec<CardGetResponse> = Vec::new();
    let mut i: usize = 0;
    let rlen = rest.len();
    proof {
        assert(orig.len() == rlen);
        assert(orig.take(0) =~= Seq::<SchemaModel>::empty());
        assert(out.deep_view() =~= spec_group_rows(orig.take(0)));
    }
    while rest.len() > 0
        invariant
            orig.len() <= usize::MAX,
            i <= orig.len(),
            rest.deep_view() == orig.skip(i as int),
            out.deep_view() == spec_group_rows(orig.take(i as int)),
        decreases rest@.len(),
    {
        let ghost rest_before = rest@;
        let y = rest.remove(0);
        proof {
            assert(y@ == orig.skip(i as int)[0]);
            assert(y@ == orig[i as int]);
            assert forall|w: int| 0 <= w < rest@.len() implies rest.deep_view()[w] == orig.skip(
                i + 1 as int,
            )[w] by {
                assert(rest@[w] == rest_before[w + 1]);
                assert(rest.deep_view()[w] == rest@[w].deep_view());
                assert(rest_before[w + 1].deep_view() == orig.skip(i as int)[w + 1]);
                assert(orig.skip(i as int)[w + 1] == orig[i + 1 + w]);
            }
            assert(rest.deep_view() =~= orig.skip(i + 1 as int));
            assert(orig.take(i + 1 as int).drop_last() =~= orig.take(i as int));
            assert(orig.take(i + 1 as int).last() == orig[i as int]);
        }
        let ghost y_model = y@;
        let ghost groups_before = out.deep_view();
        let olen = out.len();
        let mut joined = false;
        if olen > 0 {
            if out[olen - 1].set_code == y.set_code && out[olen - 1].card_code == y.card_code {
                joined = true;
            }
            proof {
                assert(out.deep_view()[olen - 1] == out@[olen - 1]@);
                assert(joined == spec_same_card(y_model, groups_before.last()));
            }
        }
        if joined {
            let mut g = match out.pop() {
                Some(g) => g,
                None => { unreached() },
            };
            let ghost g_before = g@;
            proof {
                assert(g_before == groups_before.last());
                assert(spec_same_card(y_model, groups_before.last()));
            }
            g.rating_by_format.push(y);
            proof {
                assert(g.rating_by_format.deep_view() =~= g_before.rating_by_format.push(
                    y_model,
                ));
                assert(g@ == CardGroupModel {
                    rating_by_format: g_before.rating_by_format.push(y_model),
                    ..g_before
                });
            }
            out.push(g);
            proof {
                assert(out.deep_view() =~= groups_before.update(
                    groups_before.len() - 1,
                    CardGroupModel {
                        rating_by_format: groups_before.last().rating_by_format.push(y_model),
                        ..groups_before.last()
                    },
                ));
                assert(out.deep_view() =~= spec_group_rows(orig.take(i + 1 as int)));
            }
        } else {
            let mut group: Vec<SchemaRatings> = Vec::new();
            let set_code = y.set_code.clone();
            let card_code = y.card_code.clone();
            group.push(y);
            proof {
                assert(group.deep_view() =~= seq![y_model]);
            }
            let g = CardGetResponse { set_code, card_code, rating_by_format: group };
            proof {
                assert(g@ == CardGroupModel {
                    set_code: y_model.set_code,
                    card_code: y_model.card_code,
                    rating_by_format: seq![y_model],
                });
            }
            out.push(g);
            proof {
                assert(out.deep_view() =~= groups_before.push(g@));
                assert(out.deep_view() =~= spec_group_rows(orig.take(i + 1 as int)));
            }
        }
        i = i + 1;
    }
    proof {
        assert(orig.skip(i as int).len() == 0);
        assert(orig.take(i as int) =~= orig);
    }
    out
}

} // verus!

verus! {

/// An unknown format is rejected with nothing written: when every stored
/// row carries a known format, a submission naming an unknown one can
/// match no row, so the optimistic increment touches nothing and the
/// submission reports the unknown-format rejection with the store exactly
/// as it was.
pub proof fn lemma_unknown_format_rejected(
    rows: Seq<crate::db::store::EntryModel>,
    catalog: CollectionsJson,
    cid: Seq<char>,
    fid: Seq<char>,
    sc: Seq<char>,
    cc: Seq<char>,
    v: RatingsValue,
)
    requires
        !catalog.spec_format_titles().contains(fid),
        forall|i: int|
            0 <= i < rows.len() ==> catalog.spec_format_titles().contains(
                #[trigger] rows[i].format_id,
            ),
    ensures
        spec_submit(rows, catalog, cid, fid, sc, cc, v) == (
            SubmitOutcome::Rejected(RejectReason::UnknownFormat),
            rows,
        ),
{
    if spec_has_entry(rows, cid, sc, cc, fid) {
        let i = choose|i: int|
            0 <= i < rows.len() && crate::db::store::spec_key_matches(rows[i], cid, sc, cc, fid);
        assert(rows[i].format_id == fid);
    }
}

} // verus!
