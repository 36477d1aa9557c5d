//! The rating rows and the storage contract the engine relies on: a
//! conditional counter increment and an idempotent catalog insert. The
//! `RatingStore` here is the in-memory model of that contract; the verified
//! engine and its laws are stated against it.

use vstd::prelude::*;
use crate::util::{CardDetail, CardModel, Format};
use crate::sqltext::{spec_escape_quotes, spec_decimal, append_escaped, append_decimal};
use vstd::string::StringExecFns;

verus! {

/// One of the five discrete rating levels.
#[derive(Clone, Copy, PartialEq, Eq, Structural, Debug)]
pub enum RatingsValue {
    Rated1,
    Rated2,
    Rated3,
    Rated4,
    Rated5,
}

pub open spec fn spec_sql_column(v: RatingsValue) -> Seq<char> {
    match v {
        RatingsValue::Rated1 => "rated_1"@,
        RatingsValue::Rated2 => "rated_2"@,
        RatingsValue::Rated3 => "rated_3"@,
        RatingsValue::Rated4 => "rated_4"@,
        RatingsValue::Rated5 => "rated_5"@,
    }
}

impl RatingsValue {
    /// The counter column this rating level increments.
    pub fn to_sql_column(&self) -> (r: &'static str)
        ensures
            r@ == spec_sql_column(*self),
    {
        match self {
            RatingsValue::Rated1 => "rated_1",
            RatingsValue::Rated2 => "rated_2",
            RatingsValue::Rated3 => "rated_3",
            RatingsValue::Rated4 => "rated_4",
            RatingsValue::Rated5 => "rated_5",
        }
    }
}

/// A persisted ratings row: the addressable (collection, set, card, format)
/// tuple plus its five rating-bucket counters.
pub struct CatalogEntry {
    pub collection_id: String,
    pub set_code: String,
    pub card_code: String,
    pub format_id: String,
    pub rated_1: i32,
    pub rated_2: i32,
    pub rated_3: i32,
    pub rated_4: i32,
    pub rated_5: i32,
}

pub struct EntryModel {
    pub collection_id: Seq<char>,
    pub set_code: Seq<char>,
    pub card_code: Seq<char>,
    pub format_id: Seq<char>,
    pub rated_1: int,
    pub rated_2: int,
    pub rated_3: int,
    pub rated_4: int,
    pub rated_5: int,
}

impl View for CatalogEntry {
    type V = EntryModel;

    open spec fn view(&self) -> EntryModel {
        EntryModel {
            collection_id: self.collection_id@,
            set_code: self.set_code@,
            card_code: self.card_code@,
            format_id: self.format_id@,
            rated_1: self.rated_1 as int,
            rated_2: self.rated_2 as int,
            rated_3: self.rated_3 as int,
            rated_4: self.rated_4 as int,
            rated_5: self.rated_5 as int,
        }
    }
}

pub open spec fn spec_key_matches(
    e: EntryModel,
    cid: Seq<char>,
    sc: Seq<char>,
    cc: Seq<char>,
    fid: Seq<char>,
) -> bool {
    e.collection_id == cid && e.set_code == sc && e.card_code == cc && e.format_id == fid
}

pub open spec fn spec_same_key(a: EntryModel, b: EntryModel) -> bool {
    spec_key_matches(a, b.collection_id, b.set_code, b.card_code, b.format_id)
}

pub open spec fn spec_has_entry(
    rows: Seq<EntryModel>,
    cid: Seq<char>,
    sc: Seq<char>,
    cc: Seq<char>,
    fid: Seq<char>,
) -> bool {
    exists|i: int| 0 <= i < rows.len() && spec_key_matches(rows[i], cid, sc, cc, fid)
}

/// The first index in `rows` matching the tuple.
pub open spec fn spec_entry_index(
    rows: Seq<EntryModel>,
    cid: Seq<char>,
    sc: Seq<char>,
    cc: Seq<char>,
    fid: Seq<char>,
) -> int
    decreases rows.len(),
{
    if rows.len() == 0 {
        0
    } else if spec_key_matches(rows[0], cid, sc, cc, fid) {
        0
    } else {
        1 + spec_entry_index(rows.drop_first(), cid, sc, cc, fid)
    }
}

pub proof fn lemma_entry_index(
    rows: Seq<EntryModel>,
    cid: Seq<char>,
    sc: Seq<char>,
    cc: Seq<char>,
    fid: Seq<char>,
)
    requires
        spec_has_entry(rows, cid, sc, cc, fid),
    ensures
        0 <= spec_entry_index(rows, cid, sc, cc, fid) < rows.len(),
        spec_key_matches(rows[spec_entry_index(rows, cid, sc, cc, fid)], cid, sc, cc, fid),
        forall|j: int|
            0 <= j < spec_entry_index(rows, cid, sc, cc, fid) ==> !spec_key_matches(
                rows[j],
                cid,
                sc,
                cc,
                fid,
            ),
    decreases rows.len(),
{
    if rows.len() == 0 {
    } else if spec_key_matches(rows[0], cid, sc, cc, fid) {
    } else {
        let rest = rows.drop_first();
        assert(spec_has_entry(rest, cid, sc, cc, fid)) by {
            let i = choose|i: int| 0 <= i < rows.len() && spec_key_matches(rows[i], cid, sc, cc, fid);
            assert(rest[i - 1] == rows[i]);
        }
        lemma_entry_index(rest, cid, sc, cc, fid);
        assert(forall|j: int| 1 <= j < rows.len() ==> rows[j] == rest[j - 1]);
    }
}

/// `e` with the counter for `v` one higher.
pub open spec fn spec_bump(e: EntryModel, v: RatingsValue) -> EntryModel {
    match v {
        RatingsValue::Rated1 => EntryModel { rated_1: e.rated_1 + 1, ..e },
        RatingsValue::Rated2 => EntryModel { rated_2: e.rated_2 + 1, ..e },
        RatingsValue::Rated3 => EntryModel { rated_3: e.rated_3 + 1, ..e },
        RatingsValue::Rated4 => EntryModel { rated_4: e.rated_4 + 1, ..e },
        RatingsValue::Rated5 => EntryModel { rated_5: e.rated_5 + 1, ..e },
    }
}

/// What a conditional increment does: exactly the row matching all four key
/// components is bumped; no row at all when the tuple is unknown.
pub open spec fn spec_increment(
    rows: Seq<EntryModel>,
    v: RatingsValue,
    cid: Seq<char>,
    cc: Seq<char>,
    sc: Seq<char>,
    fid: Seq<char>,
) -> Seq<EntryModel> {
    if spec_has_entry(rows, cid, sc, cc, fid) {
        let i = spec_entry_index(rows, cid, sc, cc, fid);
        rows.update(i, spec_bump(rows[i], v))
    } else {
        rows
    }
}

pub open spec fn spec_fresh_entry(
    cid: Seq<char>,
    sc: Seq<char>,
    cc: Seq<char>,
    fid: Seq<char>,
) -> EntryModel {
    EntryModel {
        collection_id: cid,
        set_code: sc,
        card_code: cc,
        format_id: fid,
        rated_1: 0,
        rated_2: 0,
        rated_3: 0,
        rated_4: 0,
        rated_5: 0,
    }
}

/// "Insert, ignore conflicts" for a single tuple.
pub open spec fn spec_insert_one(
    rows: Seq<EntryModel>,
    cid: Seq<char>,
    sc: Seq<char>,
    cc: Seq<char>,
    fid: Seq<char>,
) -> Seq<EntryModel> {
    if spec_has_entry(rows, cid, sc, cc, fid) {
        rows
    } else {
        rows.push(spec_fresh_entry(cid, sc, cc, fid))
    }
}

/// Inserts every card of `cards` under the format `fid`, in order.
pub open spec fn spec_insert_cards(
    rows: Seq<EntryModel>,
    cid: Seq<char>,
    fid: Seq<char>,
    cards: Seq<CardModel>,
) -> Seq<EntryModel>
    decreases cards.len(),
{
    if cards.len() == 0 {
        rows
    } else {
        spec_insert_cards(
            spec_insert_one(rows, cid, cards[0].set, cards[0].collector_number, fid),
            cid,
            fid,
            cards.drop_first(),
        )
    }
}

/// Inserts every card under every format, format-major, in order.
pub open spec fn spec_insert_entries(
    rows: Seq<EntryModel>,
    cid: Seq<char>,
    formats: Seq<Seq<char>>,
    cards: Seq<CardModel>,
) -> Seq<EntryModel>
    decreases formats.len(),
{
    if formats.len() == 0 {
        rows
    } else {
        spec_insert_entries(
            spec_insert_cards(rows, cid, formats[0], cards),
            cid,
            formats.drop_first(),
            cards,
        )
    }
}

/// Every counter of every row is below `i32::MAX`, so an increment cannot
/// overflow.
pub open spec fn spec_counters_in_range(rows: Seq<EntryModel>) -> bool {
    forall|i: int|
        0 <= i < rows.len() ==> rows[i].rated_1 < i32::MAX && rows[i].rated_2 < i32::MAX
            && rows[i].rated_3 < i32::MAX && rows[i].rated_4 < i32::MAX && rows[i].rated_5
            < i32::MAX
}

pub open spec fn spec_unique_keys(rows: Seq<EntryModel>) -> bool {
    forall|i: int, j: int| 0 <= i < j < rows.len() ==> !spec_same_key(rows[i], rows[j])
}

/// The in-memory model of the rating storage: one row per known tuple.
pub struct RatingStore {
    pub rows: Vec<CatalogEntry>,
}

impl RatingStore {
    pub open spec fn spec_rows(&self) -> Seq<EntryModel> {
        self.rows@.map_values(|e: CatalogEntry| e@)
    }

    pub open spec fn wf(&self) -> bool {
        spec_unique_keys(self.spec_rows())
    }

    pub fn new() -> (s: RatingStore)
        ensures
            s.spec_rows() == Seq::<EntryModel>::empty(),
            s.wf(),
    {
        let s = RatingStore { rows: Vec::new() };
        proof {
            assert(s.spec_rows() =~= Seq::<EntryModel>::empty());
        }
        s
    }

    /// The conditional update: bumps the counter for `rating` on the row
    /// matching all four key components and reports how many rows that
    /// affected. Zero rows affected is the sole signal that the tuple is
    /// unknown.
    #[verifier::loop_isolation(false)]
    pub fn increment_rating(
        &mut self,
        rating: &RatingsValue,
        collection_id: &String,
        card_code: &String,
        set_code: &String,
        format_id: &String,
    ) -> (r: u64)
        requires
            spec_counters_in_range(old(self).spec_rows()),
        ensures
            final(self).spec_rows() == spec_increment(
                old(self).spec_rows(),
                *rating,
                collection_id@,
                card_code@,
                set_code@,
                format_id@,
            ),
            r == if spec_has_entry(
                old(self).spec_rows(),
                collection_id@,
                set_code@,
                card_code@,
                format_id@,
            ) {
                1u64
            } else {
                0u64
            },
            old(self).wf() ==> final(self).wf(),
    {
        let ghost rows0 = self.spec_rows();
        let mut i: usize = 0;
        while i < self.rows.len()
            invariant
                i <= self.rows@.len(),
                self.spec_rows() == rows0,
                spec_counters_in_range(rows0),
                forall|j: int|
                    0 <= j < i ==> !spec_key_matches(
                        rows0[j],
                        collection_id@,
                        set_code@,
                        card_code@,
                        format_id@,
                    ),
            decreases self.rows@.len() - i,
        {
            if self.rows[i].collection_id == *collection_id && self.rows[i].set_code == *set_code
                && self.rows[i].card_code == *card_code && self.rows[i].format_id == *format_id {
                proof {
                    assert(spec_key_matches(
                        rows0[i as int],
                        collection_id@,
                        set_code@,
                        card_code@,
                        format_id@,
                    ));
                    lemma_entry_index(rows0, collection_id@, set_code@, card_code@, format_id@);
                    assert(spec_entry_index(
                        rows0,
                        collection_id@,
                        set_code@,
                        card_code@,
                        format_id@,
                    ) == i as int);
                }
                let row = self.rows.remove(i);
                let bumped = bump_entry(row, rating);
                self.rows.insert(i, bumped);
                proof {
                    let upd = rows0.update(i as int, spec_bump(rows0[i as int], *rating));
                    assert(self.spec_rows() =~= upd);
                    if spec_unique_keys(rows0) {
                        assert forall|a: int, b: int|
                            0 <= a < b < upd.len() implies !spec_same_key(upd[a], upd[b]) by {
                            assert(spec_same_key(
                                spec_bump(rows0[i as int], *rating),
                                rows0[i as int],
                            ));
                            assert(!spec_same_key(rows0[a], rows0[b]));
                        }
                    }
                }
                return 1;
            }
            i = i + 1;
        }
        proof {
            assert(!spec_has_entry(rows0, collection_id@, set_code@, card_code@, format_id@));
        }
        0
    }

    /// The idempotent insert: adds a zero-counter row for every (card,
    /// format) pair that is not already present, and leaves present rows
    /// untouched.
    #[verifier::loop_isolation(false)]
    pub fn insert_catalog_entries(
        &mut self,
        collection_id: &String,
        formats: &Vec<Format>,
        cards: &Vec<CardDetail>,
    )
        ensures
            final(self).spec_rows() == spec_insert_entries(
                old(self).spec_rows(),
                collection_id@,
                formats.deep_view(),
                cards.deep_view(),
            ),
            old(self).wf() ==> final(self).wf(),
    {
        let ghost rows0 = self.spec_rows();
        let ghost fmts = formats.deep_view();
        let ghost cds = cards.deep_view();
        proof {
            assert(fmts.skip(0) =~= fmts);
        }
        let mut fi: usize = 0;
        while fi < formats.len()
            invariant
                fi <= fmts.len(),
                fmts == formats.deep_view(),
                cds == cards.deep_view(),
                spec_insert_entries(rows0, collection_id@, fmts, cds) == spec_insert_entries(
                    self.spec_rows(),
                    collection_id@,
                    fmts.skip(fi as int),
                    cds,
                ),
                spec_unique_keys(rows0) ==> spec_unique_keys(self.spec_rows()),
            decreases fmts.len() - fi,
        {
            let ghost before_f = self.spec_rows();
            proof {
                assert(cds.skip(0) =~= cds);
            }
            let mut ci: usize = 0;
            while ci < cards.len()
                invariant
                    ci <= cds.len(),
                    fi < fmts.len(),
                    fmts == formats.deep_view(),
                    cds == cards.deep_view(),
                    spec_insert_cards(before_f, collection_id@, fmts[fi as int], cds)
                        == spec_insert_cards(
                        self.spec_rows(),
                        collection_id@,
                        fmts[fi as int],
                        cds.skip(ci as int),
                    ),
                    spec_unique_keys(before_f) ==> spec_unique_keys(self.spec_rows()),
                decreases cds.len() - ci,
            {
                let ghost prev = self.spec_rows();
                self.insert_one(
                    collection_id,
                    &cards[ci].set,
                    &cards[ci].collector_number,
                    &formats[fi].title,
                );
                proof {
                    assert(cds.skip(ci as int).drop_first() =~= cds.skip(ci + 1 as int));
                    assert(cds.skip(ci as int)[0] == cds[ci as int]);
                    assert(spec_insert_cards(prev, collection_id@, fmts[fi as int], cds.skip(ci as int))
                        == spec_insert_cards(
                        self.spec_rows(),
                        collection_id@,
                        fmts[fi as int],
                        cds.skip(ci + 1 as int),
                    ));
                }
                ci = ci + 1;
            }
            proof {
                assert(cds.skip(cds.len() as int) =~= Seq::<CardModel>::empty());
                assert(fmts.skip(fi as int).drop_first() =~= fmts.skip(fi + 1 as int));
                assert(fmts.skip(fi as int)[0] == fmts[fi as int]);
            }
            fi = fi + 1;
        }
        proof {
            assert(fmts.skip(fmts.len() as int) =~= Seq::<Seq<char>>::empty());
        }
    }

    /// Adds one zero-counter row unless the tuple is already present.
    #[verifier::loop_isolation(false)]
    fn insert_one(&mut self, collection_id: &String, set_code: &String, card_code: &String, format_id: &String)
        ensures
            final(self).spec_rows() == spec_insert_one(
                old(self).spec_rows(),
                collection_id@,
                set_code@,
                card_code@,
                format_id@,
            ),
            spec_unique_keys(old(self).spec_rows()) ==> spec_unique_keys(final(self).spec_rows()),
    {
        let ghost rows0 = self.spec_rows();
        let mut i: usize = 0;
        while i < self.rows.len()
            invariant
                i <= self.rows@.len(),
                self.spec_rows() == rows0,
                forall|j: int|
                    0 <= j < i ==> !spec_key_matches(
                        rows0[j],
                        collection_id@,
                        set_code@,
                        card_code@,
                        format_id@,
                    ),
            decreases self.rows@.len() - i,
        {
            if self.rows[i].collection_id == *collection_id && self.rows[i].set_code == *set_code
                && self.rows[i].card_code == *card_code && self.rows[i].format_id == *format_id {
                proof {
                    assert(spec_key_matches(
                        rows0[i as int],
                        collection_id@,
                        set_code@,
                        card_code@,
                        format_id@,
                    ));
                }
                return ;
            }
            i = i + 1;
        }
        let entry = CatalogEntry {
            collection_id: collection_id.clone(),
            set_code: set_code.clone(),
            card_code: card_code.clone(),
            format_id: format_id.clone(),
            rated_1: 0,
            rated_2: 0,
            rated_3: 0,
            rated_4: 0,
            rated_5: 0,
        };
        proof {
            assert(!spec_has_entry(rows0, collection_id@, set_code@, card_code@, format_id@));
        }
        self.rows.push(entry);
        proof {
            assert(final(self).spec_rows() =~= rows0.push(
                spec_fresh_entry(collection_id@, set_code@, card_code@, format_id@),
            ));
            if spec_unique_keys(rows0) {
                assert forall|i2: int, j2: int|
                    0 <= i2 < j2 < final(self).spec_rows().len() implies !spec_same_key(
                    final(self).spec_rows()[i2],
                    final(self).spec_rows()[j2],
                ) by {
                    if j2 == rows0.len() {
                        assert(!spec_key_matches(
                            rows0[i2],
                            collection_id@,
                            set_code@,
                            card_code@,
                            format_id@,
                        ));
                    }
                }
            }
        }
    }
}

fn bump_entry(e: CatalogEntry, rating: &RatingsValue) -> (r: CatalogEntry)
    requires
        e@.rated_1 < i32::MAX,
        e@.rated_2 < i32::MAX,
        e@.rated_3 < i32::MAX,
        e@.rated_4 < i32::MAX,
        e@.rated_5 < i32::MAX,
    ensures
        r@ == spec_bump(e@, *rating),
{
    match rating {
        RatingsValue::Rated1 => CatalogEntry { rated_1: e.rated_1 + 1, ..e },
        RatingsValue::Rated2 => CatalogEntry { rated_2: e.rated_2 + 1, ..e },
        RatingsValue::Rated3 => CatalogEntry { rated_3: e.rated_3 + 1, ..e },
        RatingsValue::Rated4 => CatalogEntry { rated_4: e.rated_4 + 1, ..e },
        RatingsValue::Rated5 => CatalogEntry { rated_5: e.rated_5 + 1, ..e },
    }
}

} // verus!

verus! {

pub open spec fn spec_when_clause(code: Seq<char>, i: nat) -> Seq<char> {
    " when '"@ + spec_escape_quotes(code) + "' then "@ + spec_decimal(i) + " "@
}

pub open spec fn spec_when_clauses(set_order: Seq<Seq<char>>, n: nat) -> Seq<char>
    decreases n,
{
    if n == 0 {
        Seq::<char>::empty()
    } else {
        spec_when_clauses(set_order, (n - 1) as nat) + spec_when_clause(
            set_order[n - 1],
            (n - 1) as nat,
        )
    }
}

/// The tie-break expression the ratings query sorts by: a CASE mapping each
/// set code of `set_order` to its position. Codes absent from `set_order`
/// fall through the CASE and sort after all listed codes. Empty for an empty
/// order, since the expression is followed by further sort terms.
pub open spec fn spec_set_order_by_expr(set_order: Seq<Seq<char>>) -> Seq<char> {
    if set_order.len() == 0 {
        Seq::<char>::empty()
    } else {
        "( case set_code "@ + spec_when_clauses(set_order, set_order.len()) + " end),"@
    }
}

/// Compiles a display order of set codes into the CASE expression the
/// storage layer sorts by. Set codes stand as quoted literals, single
/// quotes doubled.
#[verifier::loop_isolation(false)]
pub fn make_set_order_by_expr(set_order: &Vec<String>) -> (r: String)
    ensures
        r@ == spec_set_order_by_expr(set_order.deep_view()),
{
    if set_order.len() == 0 {
        return String::new();
    }
    let mut out = String::from_str("( case set_code ");
    let mut i: usize = 0;
    while i < set_order.len()
        invariant
            i <= set_order@.len(),
            out@ == "( case set_code "@ + spec_when_clauses(set_order.deep_view(), i as nat),
        decreases set_order@.len() - i,
    {
        out.append(" when '");
        append_escaped(&mut out, set_order[i].as_str());
        out.append("' then ");
        append_decimal(&mut out, i);
        out.append(" ");
        proof {
            assert(out@ =~= "( case set_code "@ + spec_when_clauses(
                set_order.deep_view(),
                (i + 1) as nat,
            ));
        }
        i = i + 1;
    }
    out.append(" end),");
    proof {
        assert(out@ =~= spec_set_order_by_expr(set_order.deep_view()));
    }
    out
}

pub open spec fn spec_increment_sql(v: RatingsValue) -> Seq<char> {
    "UPDATE ratings\n    SET "@ + spec_sql_column(v) + " = "@ + spec_sql_column(v)
        + " + 1\n    WHERE collection_id = $2 AND card_code = $3 AND set_code = $4 AND format_id = $5"@
}

/// The conditional-update statement for one rating level, ready for the
/// four key bindings.
pub fn increment_rating_sql(rating: &RatingsValue) -> (r: String)
    ensures
        r@ == spec_increment_sql(*rating),
{
    let mut out = String::from_str("UPDATE ratings\n    SET ");
    out.append(rating.to_sql_column());
    out.append(" = ");
    out.append(rating.to_sql_column());
    out.append(
        " + 1\n    WHERE collection_id = $2 AND card_code = $3 AND set_code = $4 AND format_id = $5",
    );
    proof {
        assert(out@ =~= spec_increment_sql(*rating));
    }
    out
}

} // verus!

verus! {

proof fn lemma_insert_one_range(
    rows: Seq<EntryModel>,
    cid: Seq<char>,
    sc: Seq<char>,
    cc: Seq<char>,
    fid: Seq<char>,
)
    requires
        spec_counters_in_range(rows),
    ensures
        spec_counters_in_range(spec_insert_one(rows, cid, sc, cc, fid)),
{
    let res = spec_insert_one(rows, cid, sc, cc, fid);
    if !spec_has_entry(rows, cid, sc, cc, fid) {
        assert forall|i: int| 0 <= i < res.len() implies res[i].rated_1 < i32::MAX
            && res[i].rated_2 < i32::MAX && res[i].rated_3 < i32::MAX && res[i].rated_4
            < i32::MAX && res[i].rated_5 < i32::MAX by {
            if i < rows.len() {
                assert(res[i] == rows[i]);
            } else {
                assert(res[i] == spec_fresh_entry(cid, sc, cc, fid));
            }
        }
    }
}

proof fn lemma_insert_cards_range(
    rows: Seq<EntryModel>,
    cid: Seq<char>,
    fid: Seq<char>,
    cards: Seq<CardModel>,
)
    requires
        spec_counters_in_range(rows),
    ensures
        spec_counters_in_range(spec_insert_cards(rows, cid, fid, cards)),
    decreases cards.len(),
{
    if cards.len() == 0 {
    } else {
        lemma_insert_one_range(rows, cid, cards[0].set, cards[0].collector_number, fid);
        lemma_insert_cards_range(
            spec_insert_one(rows, cid, cards[0].set, cards[0].collector_number, fid),
            cid,
            fid,
            cards.drop_first(),
        );
    }
}

/// A backfill insert cannot push a counter toward overflow: new rows start
/// at zero and present rows are untouched.
pub proof fn lemma_insert_preserves_range(
    rows: Seq<EntryModel>,
    cid: Seq<char>,
    formats: Seq<Seq<char>>,
    cards: Seq<CardModel>,
)
    requires
        spec_counters_in_range(rows),
    ensures
        spec_counters_in_range(spec_insert_entries(rows, cid, formats, cards)),
    decreases formats.len(),
{
    if formats.len() == 0 {
    } else {
        lemma_insert_cards_range(rows, cid, formats[0], cards);
        lemma_insert_preserves_range(
            spec_insert_cards(rows, cid, formats[0], cards),
            cid,
            formats.drop_first(),
            cards,
        );
    }
}

} // verus!

verus! {

/// One row of the read path: a (set, card, format) tuple of one collection
/// with its five counters.
pub struct SchemaRatings {
    pub format_id: String,
    pub set_code: String,
    pub card_code: String,
    pub rated_1: i32,
    pub rated_2: i32,
    pub rated_3: i32,
    pub rated_4: i32,
    pub rated_5: i32,
}

pub struct SchemaModel {
    pub format_id: Seq<char>,
    pub set_code: Seq<char>,
    pub card_code: Seq<char>,
    pub rated_1: int,
    pub rated_2: int,
    pub rated_3: int,
    pub rated_4: int,
    pub rated_5: int,
}

impl View for SchemaRatings {
    type V = SchemaModel;

    open spec fn view(&self) -> SchemaModel {
        SchemaModel {
            format_id: self.format_id@,
            set_code: self.set_code@,
            card_code: self.card_code@,
            rated_1: self.rated_1 as int,
            rated_2: self.rated_2 as int,
            rated_3: self.rated_3 as int,
            rated_4: self.rated_4 as int,
            rated_5: self.rated_5 as int,
        }
    }
}

impl DeepView for SchemaRatings {
    type V = SchemaModel;

    open spec fn deep_view(&self) -> SchemaModel {
        self@
    }
}

/// A stored row as the read path reports it, without its collection id.
pub open spec fn spec_to_schema(e: EntryModel) -> SchemaModel {
    SchemaModel {
        format_id: e.format_id,
        set_code: e.set_code,
        card_code: e.card_code,
        rated_1: e.rated_1,
        rated_2: e.rated_2,
        rated_3: e.rated_3,
        rated_4: e.rated_4,
        rated_5: e.rated_5,
    }
}

/// The position of `code` in the display order; codes absent from the
/// order rank after all listed ones, at the order's length.
pub open spec fn spec_rank(so: Seq<Seq<char>>, code: Seq<char>) -> int
    decreases so.len(),
{
    if so.len() == 0 {
        0
    } else if so[0] == code {
        0
    } else {
        1 + spec_rank(so.drop_first(), code)
    }
}

pub proof fn lemma_rank(so: Seq<Seq<char>>, code: Seq<char>)
    ensures
        0 <= spec_rank(so, code) <= so.len(),
        so.contains(code) <==> spec_rank(so, code) < so.len(),
        so.contains(code) ==> so[spec_rank(so, code)] == code,
    decreases so.len(),
{
    if so.len() == 0 {
    } else if so[0] == code {
    } else {
        let rest = so.drop_first();
        lemma_rank(rest, code);
        assert(forall|i: int| 0 <= i < rest.len() ==> rest[i] == so[i + 1]);
        if so.contains(code) {
            let i = choose|i: int| 0 <= i < so.len() && so[i] == code;
            assert(rest[i - 1] == code);
        }
        if rest.contains(code) {
            let i = choose|i: int| 0 <= i < rest.len() && rest[i] == code;
            assert(so[i + 1] == code);
        }
    }
}

/// The position of `code` in `set_order`, or the order's length when the
/// code is not listed.
#[verifier::loop_isolation(false)]
pub fn set_order_rank(set_order: &Vec<String>, code: &String) -> (r: usize)
    ensures
        r as int == spec_rank(set_order.deep_view(), code@),
{
    let ghost so = set_order.deep_view();
    proof {
        assert(so.skip(0) =~= so);
    }
    let mut i: usize = 0;
    while i < set_order.len()
        invariant
            i <= so.len(),
            spec_rank(so, code@) == spec_rank(so.skip(i as int), code@) + i,
            forall|j: int| 0 <= j < i ==> so[j] != code@,
        decreases so.len() - i,
    {
        proof {
            assert(so.skip(i as int)[0] == so[i as int]);
            assert(so.skip(i as int).drop_first() =~= so.skip(i + 1 as int));
        }
        if set_order[i] == *code {
            proof {
                lemma_rank(so, code@);
            }
            return i;
        }
        i = i + 1;
    }
    proof {
        assert(so.skip(so.len() as int) =~= Seq::<Seq<char>>::empty());
    }
    set_order.len()
}

/// No earlier row addresses the same (collection, set, card) as row `j`.
pub open spec fn spec_is_first_key(rows: Seq<EntryModel>, cid: Seq<char>, j: int) -> bool {
    forall|j2: int|
        0 <= j2 < j ==> !(rows[j2].collection_id == cid && rows[j2].set_code == rows[j].set_code
            && rows[j2].card_code == rows[j].card_code)
}

/// The rows of collection `cid` addressing (set, card) `(sc, cc)`, from
/// index `j` on, in row order.
pub open spec fn spec_rows_of_key(
    rows: Seq<EntryModel>,
    cid: Seq<char>,
    sc: Seq<char>,
    cc: Seq<char>,
    j: int,
) -> Seq<SchemaModel>
    decreases rows.len() - j,
{
    if j < 0 || j >= rows.len() {
        Seq::<SchemaModel>::empty()
    } else {
        (if rows[j].collection_id == cid && rows[j].set_code == sc && rows[j].card_code == cc {
            seq![spec_to_schema(rows[j])]
        } else {
            Seq::<SchemaModel>::empty()
        }) + spec_rows_of_key(rows, cid, sc, cc, j + 1)
    }
}

/// The card groups of rank `rk`, scanning from row `j` on: each first
/// occurrence of a (set, card) key whose set ranks `rk` contributes all of
/// its rows, grouped together.
pub open spec fn spec_groups_at_rank(
    rows: Seq<EntryModel>,
    cid: Seq<char>,
    so: Seq<Seq<char>>,
    rk: int,
    j: int,
) -> Seq<SchemaModel>
    decreases rows.len() - j,
{
    if j < 0 || j >= rows.len() {
        Seq::<SchemaModel>::empty()
    } else {
        (if rows[j].collection_id == cid && spec_rank(so, rows[j].set_code) == rk
            && spec_is_first_key(rows, cid, j) {
            spec_rows_of_key(rows, cid, rows[j].set_code, rows[j].card_code, 0)
        } else {
            Seq::<SchemaModel>::empty()
        }) + spec_groups_at_rank(rows, cid, so, rk, j + 1)
    }
}

/// All card groups of rank `rk` and above, rank-major.
pub open spec fn spec_ranks_from(
    rows: Seq<EntryModel>,
    cid: Seq<char>,
    so: Seq<Seq<char>>,
    rk: int,
) -> Seq<SchemaModel>
    decreases so.len() + 1 - rk,
{
    if rk < 0 || rk > so.len() {
        Seq::<SchemaModel>::empty()
    } else {
        spec_groups_at_rank(rows, cid, so, rk, 0) + spec_ranks_from(rows, cid, so, rk + 1)
    }
}

/// The read path's result: the collection's rows ordered by their set's
/// position in the display order, rows of one card adjacent.
pub open spec fn spec_get_ratings(
    rows: Seq<EntryModel>,
    cid: Seq<char>,
    so: Seq<Seq<char>>,
) -> Seq<SchemaModel> {
    spec_ranks_from(rows, cid, so, 0)
}

fn to_schema(e: &CatalogEntry) -> (r: SchemaRatings)
    ensures
        r@ == spec_to_schema(e@),
{
    SchemaRatings {
        format_id: e.format_id.clone(),
        set_code: e.set_code.clone(),
        card_code: e.card_code.clone(),
        rated_1: e.rated_1,
        rated_2: e.rated_2,
        rated_3: e.rated_3,
        rated_4: e.rated_4,
        rated_5: e.rated_5,
    }
}

impl RatingStore {
    /// True when row `j` is the first of its (collection, set, card) key.
    fn is_first_of_key(&self, collection_id: &String, j: usize) -> (r: bool)
        requires
            j < self.rows@.len(),
        ensures
            r == spec_is_first_key(self.spec_rows(), collection_id@, j as int),
    {
        let mut j2: usize = 0;
        while j2 < j
            invariant
                j2 <= j < self.rows@.len(),
                forall|w: int|
                    0 <= w < j2 ==> !(self.spec_rows()[w].collection_id == collection_id@
                        && self.spec_rows()[w].set_code == self.spec_rows()[j as int].set_code
                        && self.spec_rows()[w].card_code == self.spec_rows()[j as int].card_code),
            decreases j - j2,
        {
            if self.rows[j2].collection_id == *collection_id && self.rows[j2].set_code
                == self.rows[j].set_code && self.rows[j2].card_code == self.rows[j].card_code {
                proof {
                    assert(self.spec_rows()[j2 as int].collection_id == collection_id@
                        && self.spec_rows()[j2 as int].set_code == self.spec_rows()[
                        j as int].set_code && self.spec_rows()[j2 as int].card_code
                        == self.spec_rows()[j as int].card_code);
                    assert(!spec_is_first_key(self.spec_rows(), collection_id@, j as int));
                }
                return false;
            }
            j2 = j2 + 1;
        }
        true
    }

    /// The rows of one collection, ordered by the display order of their
    /// sets; the rows of one card stand adjacent, one per format. Codes
    /// absent from the display order come after all listed ones.
    #[verifier::loop_isolation(false)]
    #[verifier::rlimit(100)]
    pub fn get_ratings(&self, collection_id: &String, set_order: &Vec<String>) -> (r: Vec<
        SchemaRatings,
    >)
        requires
            set_order@.len() < usize::MAX,
        ensures
            r.deep_view() == spec_get_ratings(
                self.spec_rows(),
                collection_id@,
                set_order.deep_view(),
            ),
    {
        let ghost rows = self.spec_rows();
        let ghost so = set_order.deep_view();
        let mut out: Vec<SchemaRatings> = Vec::new();
        let mut rk: usize = 0;
        proof {
            assert(out.deep_view() =~= Seq::<SchemaModel>::empty());
        }
        while rk <= set_order.len()
            invariant
                rk <= so.len() + 1,
                spec_get_ratings(rows, collection_id@, so) == out.deep_view() + spec_ranks_from(
                    rows,
                    collection_id@,
                    so,
                    rk as int,
                ),
            decreases so.len() + 1 - rk,
        {
            let ghost base = out.deep_view();
            let mut j: usize = 0;
            while j < self.rows.len()
                invariant
                    j <= rows.len(),
                    rk <= so.len(),
                    base + spec_groups_at_rank(rows, collection_id@, so, rk as int, 0)
                        == out.deep_view() + spec_groups_at_rank(
                        rows,
                        collection_id@,
                        so,
                        rk as int,
                        j as int,
                    ),
                decreases rows.len() - j,
            {
                let hit = self.rows[j].collection_id == *collection_id && set_order_rank(
                    set_order,
                    &self.rows[j].set_code,
                ) == rk && self.is_first_of_key(collection_id, j);
                if hit {
                    let ghost base2 = out.deep_view();
                    let mut j2: usize = 0;
                    while j2 < self.rows.len()
                        invariant
                            j2 <= rows.len(),
                            j < rows.len(),
                            base2 + spec_rows_of_key(
                                rows,
                                collection_id@,
                                rows[j as int].set_code,
                                rows[j as int].card_code,
                                0,
                            ) == out.deep_view() + spec_rows_of_key(
                                rows,
                                collection_id@,
                                rows[j as int].set_code,
                                rows[j as int].card_code,
                                j2 as int,
                            ),
                        decreases rows.len() - j2,
                    {
                        if self.rows[j2].collection_id == *collection_id && self.rows[j2].set_code
                            == self.rows[j].set_code && self.rows[j2].card_code
                            == self.rows[j].card_code {
                            let row = to_schema(&self.rows[j2]);
                            out.push(row);
                        }
                        proof {
                            assert(spec_rows_of_key(
                                rows,
                                collection_id@,
                                rows[j as int].set_code,
                                rows[j as int].card_code,
                                j2 as int,
                            ) == (if rows[j2 as int].collection_id == collection_id@
                                && rows[j2 as int].set_code == rows[j as int].set_code
                                && rows[j2 as int].card_code == rows[j as int].card_code {
                                seq![spec_to_schema(rows[j2 as int])]
                            } else {
                                Seq::<SchemaModel>::empty()
                            }) + spec_rows_of_key(
                                rows,
                                collection_id@,
                                rows[j as int].set_code,
                                rows[j as int].card_code,
                                j2 + 1 as int,
                            ));
                            assert(base2 + spec_rows_of_key(
                                rows,
                                collection_id@,
                                rows[j as int].set_code,
                                rows[j as int].card_code,
                                0,
                            ) =~= out.deep_view() + spec_rows_of_key(
                                rows,
                                collection_id@,
                                rows[j as int].set_code,
                                rows[j as int].card_code,
                                j2 + 1 as int,
                            ));
                        }
                        j2 = j2 + 1;
                    }
                    proof {
                        assert(spec_rows_of_key(
                            rows,
                            collection_id@,
                            rows[j as int].set_code,
                            rows[j as int].card_code,
                            rows.len() as int,
                        ) =~= Seq::<SchemaModel>::empty());
                        assert(out.deep_view() =~= base2 + spec_rows_of_key(
                            rows,
                            collection_id@,
                            rows[j as int].set_code,
                            rows[j as int].card_code,
                            0,
                        ));
                    }
                }
                proof {
                    assert(spec_groups_at_rank(rows, collection_id@, so, rk as int, j as int)
                        == (if rows[j as int].collection_id == collection_id@ && spec_rank(
                        so,
                        rows[j as int].set_code,
                    ) == rk as int && spec_is_first_key(rows, collection_id@, j as int) {
                        spec_rows_of_key(
                            rows,
                            collection_id@,
                            rows[j as int].set_code,
                            rows[j as int].card_code,
                            0,
                        )
                    } else {
                        Seq::<SchemaModel>::empty()
                    }) + spec_groups_at_rank(rows, collection_id@, so, rk as int, j + 1 as int));
                    assert(base + spec_groups_at_rank(rows, collection_id@, so, rk as int, 0)
                        =~= out.deep_view() + spec_groups_at_rank(
                        rows,
                        collection_id@,
                        so,
                        rk as int,
                        j + 1 as int,
                    ));
                }
                j = j + 1;
            }
            proof {
                assert(spec_groups_at_rank(rows, collection_id@, so, rk as int, rows.len() as int)
                    =~= Seq::<SchemaModel>::empty());
                assert(spec_ranks_from(rows, collection_id@, so, rk as int)
                    == spec_groups_at_rank(rows, collection_id@, so, rk as int, 0)
                    + spec_ranks_from(rows, collection_id@, so, rk + 1 as int));
                assert(spec_get_ratings(rows, collection_id@, so) =~= out.deep_view()
                    + spec_ranks_from(rows, collection_id@, so, rk + 1 as int));
            }
            rk = rk + 1;
        }
        proof {
            assert(spec_ranks_from(rows, collection_id@, so, so.len() + 1 as int) =~= Seq::<
                SchemaModel,
            >::empty());
        }
        out
    }
}

} // verus!

verus! {

/// The counter of `e` for the rating level `v`.
pub open spec fn spec_rating_count(e: EntryModel, v: RatingsValue) -> int {
    match v {
        RatingsValue::Rated1 => e.rated_1,
        RatingsValue::Rated2 => e.rated_2,
        RatingsValue::Rated3 => e.rated_3,
        RatingsValue::Rated4 => e.rated_4,
        RatingsValue::Rated5 => e.rated_5,
    }
}

proof fn lemma_insert_one_preserves_has(
    rows: Seq<EntryModel>,
    cid: Seq<char>,
    sc: Seq<char>,
    cc: Seq<char>,
    fid: Seq<char>,
    cid2: Seq<char>,
    sc2: Seq<char>,
    cc2: Seq<char>,
    fid2: Seq<char>,
)
    requires
        spec_has_entry(rows, cid2, sc2, cc2, fid2),
    ensures
        spec_has_entry(spec_insert_one(rows, cid, sc, cc, fid), cid2, sc2, cc2, fid2),
{
    let res = spec_insert_one(rows, cid, sc, cc, fid);
    let i = choose|i: int| 0 <= i < rows.len() && spec_key_matches(rows[i], cid2, sc2, cc2, fid2);
    assert(res[i] == rows[i]);
}

proof fn lemma_insert_cards_preserves_has(
    rows: Seq<EntryModel>,
    cid: Seq<char>,
    fid: Seq<char>,
    cards: Seq<CardModel>,
    cid2: Seq<char>,
    sc2: Seq<char>,
    cc2: Seq<char>,
    fid2: Seq<char>,
)
    requires
        spec_has_entry(rows, cid2, sc2, cc2, fid2),
    ensures
        spec_has_entry(spec_insert_cards(rows, cid, fid, cards), cid2, sc2, cc2, fid2),
    decreases cards.len(),
{
    if cards.len() == 0 {
    } else {
        lemma_insert_one_preserves_has(
            rows,
            cid,
            cards[0].set,
            cards[0].collector_number,
            fid,
            cid2,
            sc2,
            cc2,
            fid2,
        );
        lemma_insert_cards_preserves_has(
            spec_insert_one(rows, cid, cards[0].set, cards[0].collector_number, fid),
            cid,
            fid,
            cards.drop_first(),
            cid2,
            sc2,
            cc2,
            fid2,
        );
    }
}

proof fn lemma_insert_entries_preserves_has(
    rows: Seq<EntryModel>,
    cid: Seq<char>,
    formats: Seq<Seq<char>>,
    cards: Seq<CardModel>,
    cid2: Seq<char>,
    sc2: Seq<char>,
    cc2: Seq<char>,
    fid2: Seq<char>,
)
    requires
        spec_has_entry(rows, cid2, sc2, cc2, fid2),
    ensures
        spec_has_entry(spec_insert_entries(rows, cid, formats, cards), cid2, sc2, cc2, fid2),
    decreases formats.len(),
{
    if formats.len() == 0 {
    } else {
        lemma_insert_cards_preserves_has(rows, cid, formats[0], cards, cid2, sc2, cc2, fid2);
        lemma_insert_entries_preserves_has(
            spec_insert_cards(rows, cid, formats[0], cards),
            cid,
            formats.drop_first(),
            cards,
            cid2,
            sc2,
            cc2,
            fid2,
        );
    }
}

proof fn lemma_insert_cards_adds(
    rows: Seq<EntryModel>,
    cid: Seq<char>,
    fid: Seq<char>,
    cards: Seq<CardModel>,
)
    ensures
        forall|w: int|
            0 <= w < cards.len() ==> spec_has_entry(
                spec_insert_cards(rows, cid, fid, cards),
                cid,
                cards[w].set,
                cards[w].collector_number,
                fid,
            ),
    decreases cards.len(),
{
    if cards.len() == 0 {
    } else {
        let mid = spec_insert_one(rows, cid, cards[0].set, cards[0].collector_number, fid);
        assert(spec_has_entry(mid, cid, cards[0].set, cards[0].collector_number, fid)) by {
            if !spec_has_entry(rows, cid, cards[0].set, cards[0].collector_number, fid) {
                assert(mid.last() == spec_fresh_entry(
                    cid,
                    cards[0].set,
                    cards[0].collector_number,
                    fid,
                ));
            } else {
                let i = choose|i: int|
                    0 <= i < rows.len() && spec_key_matches(
                        rows[i],
                        cid,
                        cards[0].set,
                        cards[0].collector_number,
                        fid,
                    );
                assert(mid[i] == rows[i]);
            }
        }
        lemma_insert_cards_preserves_has(
            mid,
            cid,
            fid,
            cards.drop_first(),
            cid,
            cards[0].set,
            cards[0].collector_number,
            fid,
        );
        lemma_insert_cards_adds(mid, cid, fid, cards.drop_first());
        assert(forall|w: int| 1 <= w < cards.len() ==> cards.drop_first()[w - 1] == cards[w]);
    }
}

/// After a backfill insert, every (card, format) pair of it is present.
pub proof fn lemma_insert_entries_adds(
    rows: Seq<EntryModel>,
    cid: Seq<char>,
    formats: Seq<Seq<char>>,
    cards: Seq<CardModel>,
)
    ensures
        forall|f: int, w: int|
            0 <= f < formats.len() && 0 <= w < cards.len() ==> spec_has_entry(
                spec_insert_entries(rows, cid, formats, cards),
                cid,
                cards[w].set,
                cards[w].collector_number,
                formats[f],
            ),
    decreases formats.len(),
{
    if formats.len() == 0 {
    } else {
        let mid = spec_insert_cards(rows, cid, formats[0], cards);
        lemma_insert_cards_adds(rows, cid, formats[0], cards);
        assert forall|w: int| 0 <= w < cards.len() implies spec_has_entry(
            spec_insert_entries(rows, cid, formats, cards),
            cid,
            cards[w].set,
            cards[w].collector_number,
            formats[0],
        ) by {
            lemma_insert_entries_preserves_has(
                mid,
                cid,
                formats.drop_first(),
                cards,
                cid,
                cards[w].set,
                cards[w].collector_number,
                formats[0],
            );
        }
        lemma_insert_entries_adds(mid, cid, formats.drop_first(), cards);
        assert forall|f: int, w: int|
            1 <= f < formats.len() && 0 <= w < cards.len() implies spec_has_entry(
            spec_insert_entries(rows, cid, formats, cards),
            cid,
            cards[w].set,
            cards[w].collector_number,
            formats[f],
        ) by {
            assert(formats.drop_first()[f - 1] == formats[f]);
            assert(spec_insert_entries(rows, cid, formats, cards) == spec_insert_entries(
                mid,
                cid,
                formats.drop_first(),
                cards,
            ));
            assert(spec_has_entry(
                spec_insert_entries(mid, cid, formats.drop_first(), cards),
                cid,
                cards[w].set,
                cards[w].collector_number,
                formats.drop_first()[f - 1],
            ));
        }
    }
}

proof fn lemma_insert_cards_noop(
    rows: Seq<EntryModel>,
    cid: Seq<char>,
    fid: Seq<char>,
    cards: Seq<CardModel>,
)
    requires
        forall|w: int|
            0 <= w < cards.len() ==> spec_has_entry(
                rows,
                cid,
                cards[w].set,
                cards[w].collector_number,
                fid,
            ),
    ensures
        spec_insert_cards(rows, cid, fid, cards) == rows,
    decreases cards.len(),
{
    if cards.len() == 0 {
    } else {
        assert(spec_has_entry(rows, cid, cards[0].set, cards[0].collector_number, fid));
        assert(spec_insert_one(rows, cid, cards[0].set, cards[0].collector_number, fid) == rows);
        assert(forall|w: int| 1 <= w < cards.len() ==> cards.drop_first()[w - 1] == cards[w]);
        lemma_insert_cards_noop(rows, cid, fid, cards.drop_first());
    }
}

proof fn lemma_insert_entries_noop(
    rows: Seq<EntryModel>,
    cid: Seq<char>,
    formats: Seq<Seq<char>>,
    cards: Seq<CardModel>,
)
    requires
        forall|f: int, w: int|
            0 <= f < formats.len() && 0 <= w < cards.len() ==> spec_has_entry(
                rows,
                cid,
                cards[w].set,
                cards[w].collector_number,
                formats[f],
            ),
    ensures
        spec_insert_entries(rows, cid, formats, cards) == rows,
    decreases formats.len(),
{
    if formats.len() == 0 {
    } else {
        lemma_insert_cards_noop(rows, cid, formats[0], cards);
        assert(forall|f: int|
            1 <= f < formats.len() ==> formats.drop_first()[f - 1] == formats[f]);
        lemma_insert_entries_noop(rows, cid, formats.drop_first(), cards);
    }
}

/// Backfill idempotence, rows: inserting the same entries twice is the
/// same as inserting them once — concurrent backfills cannot produce
/// duplicate rows.
pub proof fn lemma_insert_idempotent(
    rows: Seq<EntryModel>,
    cid: Seq<char>,
    formats: Seq<Seq<char>>,
    cards: Seq<CardModel>,
)
    ensures
        spec_insert_entries(
            spec_insert_entries(rows, cid, formats, cards),
            cid,
            formats,
            cards,
        ) == spec_insert_entries(rows, cid, formats, cards),
{
    lemma_insert_entries_adds(rows, cid, formats, cards);
    lemma_insert_entries_noop(spec_insert_entries(rows, cid, formats, cards), cid, formats, cards);
}

/// An increment changes no key: row for row, the addressed tuples stay.
pub proof fn lemma_increment_preserves_keys(
    rows: Seq<EntryModel>,
    v: RatingsValue,
    cid: Seq<char>,
    cc: Seq<char>,
    sc: Seq<char>,
    fid: Seq<char>,
)
    ensures
        spec_increment(rows, v, cid, cc, sc, fid).len() == rows.len(),
        forall|j: int|
            0 <= j < rows.len() ==> spec_same_key(
                spec_increment(rows, v, cid, cc, sc, fid)[j],
                rows[j],
            ),
{
    let res = spec_increment(rows, v, cid, cc, sc, fid);
    if spec_has_entry(rows, cid, sc, cc, fid) {
        let i = spec_entry_index(rows, cid, sc, cc, fid);
        lemma_entry_index(rows, cid, sc, cc, fid);
        assert forall|j: int| 0 <= j < rows.len() implies spec_same_key(res[j], rows[j]) by {
            if j == i {
                assert(res[j] == spec_bump(rows[i], v));
            } else {
                assert(res[j] == rows[j]);
            }
        }
    }
}

} // verus!

verus! {

proof fn lemma_entry_index_same_keys(
    a: Seq<EntryModel>,
    b: Seq<EntryModel>,
    cid: Seq<char>,
    sc: Seq<char>,
    cc: Seq<char>,
    fid: Seq<char>,
)
    requires
        a.len() == b.len(),
        forall|j: int| 0 <= j < a.len() ==> spec_same_key(a[j], b[j]),
    ensures
        spec_entry_index(a, cid, sc, cc, fid) == spec_entry_index(b, cid, sc, cc, fid),
    decreases a.len(),
{
    if a.len() == 0 {
    } else {
        assert(spec_same_key(a[0], b[0]));
        assert(spec_key_matches(a[0], cid, sc, cc, fid) == spec_key_matches(
            b[0],
            cid,
            sc,
            cc,
            fid,
        ));
        if !spec_key_matches(a[0], cid, sc, cc, fid) {
            assert(forall|j: int|
                0 <= j < a.drop_first().len() ==> a.drop_first()[j] == a[j + 1]
                    && b.drop_first()[j] == b[j + 1]);
            lemma_entry_index_same_keys(a.drop_first(), b.drop_first(), cid, sc, cc, fid);
        }
    }
}

proof fn lemma_same_keys_has(
    a: Seq<EntryModel>,
    b: Seq<EntryModel>,
    cid: Seq<char>,
    sc: Seq<char>,
    cc: Seq<char>,
    fid: Seq<char>,
)
    requires
        a.len() == b.len(),
        forall|j: int| 0 <= j < a.len() ==> spec_same_key(a[j], b[j]),
    ensures
        spec_has_entry(a, cid, sc, cc, fid) == spec_has_entry(b, cid, sc, cc, fid),
{
    if spec_has_entry(a, cid, sc, cc, fid) {
        let i = choose|i: int| 0 <= i < a.len() && spec_key_matches(a[i], cid, sc, cc, fid);
        assert(spec_key_matches(b[i], cid, sc, cc, fid));
    }
    if spec_has_entry(b, cid, sc, cc, fid) {
        let i = choose|i: int| 0 <= i < b.len() && spec_key_matches(b[i], cid, sc, cc, fid);
        assert(spec_key_matches(a[i], cid, sc, cc, fid));
    }
}

/// Increment atomicity: two increments of the same known tuple with
/// different ratings, in either order, each land on that one row, and each
/// rating's counter ends exactly one higher — no update is lost.
pub proof fn lemma_increment_atomicity(
    rows: Seq<EntryModel>,
    cid: Seq<char>,
    sc: Seq<char>,
    cc: Seq<char>,
    fid: Seq<char>,
    v1: RatingsValue,
    v2: RatingsValue,
)
    requires
        spec_unique_keys(rows),
        spec_has_entry(rows, cid, sc, cc, fid),
        v1 != v2,
    ensures
        ({
            let i = spec_entry_index(rows, cid, sc, cc, fid);
            let once = spec_increment(rows, v1, cid, cc, sc, fid);
            let both = spec_increment(once, v2, cid, cc, sc, fid);
            &&& spec_has_entry(once, cid, sc, cc, fid)
            &&& both == rows.update(i, spec_bump(spec_bump(rows[i], v1), v2))
            &&& spec_rating_count(both[i], v1) == spec_rating_count(rows[i], v1) + 1
            &&& spec_rating_count(both[i], v2) == spec_rating_count(rows[i], v2) + 1
            &&& both == spec_increment(
                spec_increment(rows, v2, cid, cc, sc, fid),
                v1,
                cid,
                cc,
                sc,
                fid,
            )
        }),
{
    lemma_increment_commute(rows, cid, sc, cc, fid, v1, v2);
    let i = spec_entry_index(rows, cid, sc, cc, fid);
    lemma_entry_index(rows, cid, sc, cc, fid);
    let once = spec_increment(rows, v1, cid, cc, sc, fid);
    lemma_increment_preserves_keys(rows, v1, cid, cc, sc, fid);
    lemma_same_keys_has(rows, once, cid, sc, cc, fid);
    let both = spec_increment(once, v2, cid, cc, sc, fid);
    lemma_entry_index_same_keys(rows, once, cid, sc, cc, fid);
    assert(once[i] == spec_bump(rows[i], v1));
    assert(both =~= rows.update(i, spec_bump(spec_bump(rows[i], v1), v2)));
}

/// Two increments of one known tuple commute.
pub proof fn lemma_increment_commute(
    rows: Seq<EntryModel>,
    cid: Seq<char>,
    sc: Seq<char>,
    cc: Seq<char>,
    fid: Seq<char>,
    v1: RatingsValue,
    v2: RatingsValue,
)
    requires
        spec_has_entry(rows, cid, sc, cc, fid),
    ensures
        spec_increment(spec_increment(rows, v1, cid, cc, sc, fid), v2, cid, cc, sc, fid)
            == spec_increment(spec_increment(rows, v2, cid, cc, sc, fid), v1, cid, cc, sc, fid),
{
    let i = spec_entry_index(rows, cid, sc, cc, fid);
    lemma_entry_index(rows, cid, sc, cc, fid);
    let a1 = spec_increment(rows, v1, cid, cc, sc, fid);
    let a2 = spec_increment(rows, v2, cid, cc, sc, fid);
    lemma_increment_preserves_keys(rows, v1, cid, cc, sc, fid);
    lemma_increment_preserves_keys(rows, v2, cid, cc, sc, fid);
    lemma_same_keys_has(rows, a1, cid, sc, cc, fid);
    lemma_same_keys_has(rows, a2, cid, sc, cc, fid);
    lemma_entry_index_same_keys(rows, a1, cid, sc, cc, fid);
    lemma_entry_index_same_keys(rows, a2, cid, sc, cc, fid);
    assert(spec_bump(spec_bump(rows[i], v1), v2) == spec_bump(spec_bump(rows[i], v2), v1));
    assert(spec_increment(a1, v2, cid, cc, sc, fid) =~= rows.update(
        i,
        spec_bump(spec_bump(rows[i], v1), v2),
    ));
    assert(spec_increment(a2, v1, cid, cc, sc, fid) =~= rows.update(
        i,
        spec_bump(spec_bump(rows[i], v2), v1),
    ));
}

} // verus!

verus! {

proof fn lemma_insert_one_preserves_unique(
    rows: Seq<EntryModel>,
    cid: Seq<char>,
    sc: Seq<char>,
    cc: Seq<char>,
    fid: Seq<char>,
)
    requires
        spec_unique_keys(rows),
    ensures
        spec_unique_keys(spec_insert_one(rows, cid, sc, cc, fid)),
{
    let res = spec_insert_one(rows, cid, sc, cc, fid);
    if !spec_has_entry(rows, cid, sc, cc, fid) {
        assert forall|i: int, j: int| 0 <= i < j < res.len() implies !spec_same_key(
            res[i],
            res[j],
        ) by {
            if j == rows.len() {
                assert(res[j] == spec_fresh_entry(cid, sc, cc, fid));
                if spec_same_key(res[i], res[j]) {
                    assert(spec_key_matches(rows[i], cid, sc, cc, fid));
                }
            }
        }
    }
}

proof fn lemma_insert_cards_preserves_unique(
    rows: Seq<EntryModel>,
    cid: Seq<char>,
    fid: Seq<char>,
    cards: Seq<CardModel>,
)
    requires
        spec_unique_keys(rows),
    ensures
        spec_unique_keys(spec_insert_cards(rows, cid, fid, cards)),
    decreases cards.len(),
{
    if cards.len() == 0 {
    } else {
        lemma_insert_one_preserves_unique(rows, cid, cards[0].set, cards[0].collector_number, fid);
        lemma_insert_cards_preserves_unique(
            spec_insert_one(rows, cid, cards[0].set, cards[0].collector_number, fid),
            cid,
            fid,
            cards.drop_first(),
        );
    }
}

/// A backfill insert keeps the store's keys unique: no duplicate rows.
pub proof fn lemma_insert_preserves_unique(
    rows: Seq<EntryModel>,
    cid: Seq<char>,
    formats: Seq<Seq<char>>,
    cards: Seq<CardModel>,
)
    requires
        spec_unique_keys(rows),
    ensures
        spec_unique_keys(spec_insert_entries(rows, cid, formats, cards)),
    decreases formats.len(),
{
    if formats.len() == 0 {
    } else {
        lemma_insert_cards_preserves_unique(rows, cid, formats[0], cards);
        lemma_insert_preserves_unique(
            spec_insert_cards(rows, cid, formats[0], cards),
            cid,
            formats.drop_first(),
            cards,
        );
    }
}

pub open spec fn spec_zero_counters(e: EntryModel) -> bool {
    e.rated_1 == 0 && e.rated_2 == 0 && e.rated_3 == 0 && e.rated_4 == 0 && e.rated_5 == 0
}

proof fn lemma_insert_one_rows(
    rows: Seq<EntryModel>,
    cid: Seq<char>,
    sc: Seq<char>,
    cc: Seq<char>,
    fid: Seq<char>,
)
    ensures
        forall|j: int|
            0 <= j < spec_insert_one(rows, cid, sc, cc, fid).len() ==> rows.contains(
                spec_insert_one(rows, cid, sc, cc, fid)[j],
            ) || spec_zero_counters(spec_insert_one(rows, cid, sc, cc, fid)[j]),
{
    let res = spec_insert_one(rows, cid, sc, cc, fid);
    assert forall|j: int| 0 <= j < res.len() implies rows.contains(res[j])
        || spec_zero_counters(res[j]) by {
        if j < rows.len() {
            assert(res[j] == rows[j]);
        }
    }
}

proof fn lemma_insert_cards_rows(
    rows: Seq<EntryModel>,
    cid: Seq<char>,
    fid: Seq<char>,
    cards: Seq<CardModel>,
)
    ensures
        forall|j: int|
            0 <= j < spec_insert_cards(rows, cid, fid, cards).len() ==> rows.contains(
                spec_insert_cards(rows, cid, fid, cards)[j],
            ) || spec_zero_counters(spec_insert_cards(rows, cid, fid, cards)[j]),
    decreases cards.len(),
{
    if cards.len() == 0 {
    } else {
        let mid = spec_insert_one(rows, cid, cards[0].set, cards[0].collector_number, fid);
        lemma_insert_one_rows(rows, cid, cards[0].set, cards[0].collector_number, fid);
        lemma_insert_cards_rows(mid, cid, fid, cards.drop_first());
        let res = spec_insert_cards(rows, cid, fid, cards);
        assert(res == spec_insert_cards(mid, cid, fid, cards.drop_first()));
        assert forall|j: int| 0 <= j < res.len() implies rows.contains(res[j])
            || spec_zero_counters(res[j]) by {
            assert(mid.contains(res[j]) || spec_zero_counters(res[j]));
            if mid.contains(res[j]) {
                let w = choose|w: int| 0 <= w < mid.len() && mid[w] == res[j];
                assert(rows.contains(mid[w]) || spec_zero_counters(mid[w]));
            }
        }
    }
}

/// Every row of a backfilled store is an old row or a fresh zero-counter
/// one: an insert never touches existing counters.
pub proof fn lemma_insert_entries_rows(
    rows: Seq<EntryModel>,
    cid: Seq<char>,
    formats: Seq<Seq<char>>,
    cards: Seq<CardModel>,
)
    ensures
        forall|j: int|
            0 <= j < spec_insert_entries(rows, cid, formats, cards).len() ==> rows.contains(
                spec_insert_entries(rows, cid, formats, cards)[j],
            ) || spec_zero_counters(spec_insert_entries(rows, cid, formats, cards)[j]),
    decreases formats.len(),
{
    if formats.len() == 0 {
        let res = spec_insert_entries(rows, cid, formats, cards);
        assert forall|j: int| 0 <= j < res.len() implies rows.contains(res[j])
            || spec_zero_counters(res[j]) by {
            assert(res[j] == rows[j]);
        }
    } else {
        let mid = spec_insert_cards(rows, cid, formats[0], cards);
        lemma_insert_cards_rows(rows, cid, formats[0], cards);
        lemma_insert_entries_rows(mid, cid, formats.drop_first(), cards);
        let res = spec_insert_entries(rows, cid, formats, cards);
        assert(res == spec_insert_entries(mid, cid, formats.drop_first(), cards));
        assert forall|j: int| 0 <= j < res.len() implies rows.contains(res[j])
            || spec_zero_counters(res[j]) by {
            assert(mid.contains(res[j]) || spec_zero_counters(res[j]));
            if mid.contains(res[j]) {
                let w = choose|w: int| 0 <= w < mid.len() && mid[w] == res[j];
                assert(rows.contains(mid[w]) || spec_zero_counters(mid[w]));
            }
        }
    }
}

/// One storage call of a backfilling caller: the idempotent insert of the
/// tuple's rows, or a counter increment that landed.
pub enum BackfillOp {
    Insert,
    Inc(RatingsValue),
}

/// The store after a sequence of backfill calls, applied in order.
pub open spec fn spec_apply_ops(
    rows: Seq<EntryModel>,
    ops: Seq<BackfillOp>,
    cid: Seq<char>,
    formats: Seq<Seq<char>>,
    cards: Seq<CardModel>,
    sc: Seq<char>,
    cc: Seq<char>,
    fid: Seq<char>,
) -> Seq<EntryModel>
    decreases ops.len(),
{
    if ops.len() == 0 {
        rows
    } else {
        let next = match ops[0] {
            BackfillOp::Insert => spec_insert_entries(rows, cid, formats, cards),
            BackfillOp::Inc(v) => spec_increment(rows, v, cid, cc, sc, fid),
        };
        spec_apply_ops(next, ops.drop_first(), cid, formats, cards, sc, cc, fid)
    }
}

/// How often the increment of rating `v` occurs in `ops`.
pub open spec fn spec_count_inc(ops: Seq<BackfillOp>, v: RatingsValue) -> nat
    decreases ops.len(),
{
    if ops.len() == 0 {
        0
    } else {
        (if ops[0] == BackfillOp::Inc(v) {
            1nat
        } else {
            0nat
        }) + spec_count_inc(ops.drop_first(), v)
    }
}

} // verus!

verus! {

/// The canonical outcome of two backfilling callers: the tuple's rows
/// inserted once, then whichever of the two increments have landed.
pub open spec fn spec_backfill_canonical(
    rows0: Seq<EntryModel>,
    cid: Seq<char>,
    formats: Seq<Seq<char>>,
    cards: Seq<CardModel>,
    sc: Seq<char>,
    cc: Seq<char>,
    fid: Seq<char>,
    v1: RatingsValue,
    v2: RatingsValue,
    s1: bool,
    s2: bool,
) -> Seq<EntryModel> {
    let base = spec_insert_entries(rows0, cid, formats, cards);
    let x = if s1 {
        spec_increment(base, v1, cid, cc, sc, fid)
    } else {
        base
    };
    if s2 {
        spec_increment(x, v2, cid, cc, sc, fid)
    } else {
        x
    }
}

#[verifier::rlimit(60)]
proof fn lemma_backfill_run(
    rows0: Seq<EntryModel>,
    ops: Seq<BackfillOp>,
    cid: Seq<char>,
    formats: Seq<Seq<char>>,
    cards: Seq<CardModel>,
    sc: Seq<char>,
    cc: Seq<char>,
    fid: Seq<char>,
    v1: RatingsValue,
    v2: RatingsValue,
    s1: bool,
    s2: bool,
)
    requires
        v1 != v2,
        cards == seq![CardModel { set: sc, collector_number: cc }],
        formats.contains(fid),
        forall|w: int|
            0 <= w < ops.len() ==> ops[w] == BackfillOp::Insert || ops[w] == BackfillOp::Inc(v1)
                || ops[w] == BackfillOp::Inc(v2),
        spec_count_inc(ops, v1) == (if s1 {
            0nat
        } else {
            1nat
        }),
        spec_count_inc(ops, v2) == (if s2 {
            0nat
        } else {
            1nat
        }),
    ensures
        spec_apply_ops(
            spec_backfill_canonical(rows0, cid, formats, cards, sc, cc, fid, v1, v2, s1, s2),
            ops,
            cid,
            formats,
            cards,
            sc,
            cc,
            fid,
        ) == spec_backfill_canonical(
            rows0,
            cid,
            formats,
            cards,
            sc,
            cc,
            fid,
            v1,
            v2,
            true,
            true,
        ),
    decreases ops.len(),
{
    let base = spec_insert_entries(rows0, cid, formats, cards);
    let x = if s1 {
        spec_increment(base, v1, cid, cc, sc, fid)
    } else {
        base
    };
    let state = spec_backfill_canonical(rows0, cid, formats, cards, sc, cc, fid, v1, v2, s1, s2);
    let fi = choose|fi: int| 0 <= fi < formats.len() && formats[fi] == fid;
    lemma_insert_entries_adds(rows0, cid, formats, cards);
    assert(cards[0] == CardModel { set: sc, collector_number: cc });
    assert(spec_has_entry(base, cid, sc, cc, fid));
    if ops.len() == 0 {
        if !s1 {
            assert(spec_count_inc(ops, v1) == 0);
        }
        if !s2 {
            assert(spec_count_inc(ops, v2) == 0);
        }
    } else {
        let rest = ops.drop_first();
        assert(forall|w: int| 0 <= w < rest.len() ==> rest[w] == ops[w + 1]);
        if s1 {
            lemma_increment_preserves_keys(base, v1, cid, cc, sc, fid);
        }
        if s2 {
            lemma_increment_preserves_keys(x, v2, cid, cc, sc, fid);
        }
        assert(state.len() == base.len());
        assert(forall|j: int| 0 <= j < base.len() ==> spec_same_key(state[j], base[j]));
        match ops[0] {
            BackfillOp::Insert => {
                assert forall|f: int, w: int|
                    0 <= f < formats.len() && 0 <= w < cards.len() implies spec_has_entry(
                    state,
                    cid,
                    cards[w].set,
                    cards[w].collector_number,
                    formats[f],
                ) by {
                    lemma_same_keys_has(
                        base,
                        state,
                        cid,
                        cards[w].set,
                        cards[w].collector_number,
                        formats[f],
                    );
                }
                lemma_insert_entries_noop(state, cid, formats, cards);
                assert(spec_count_inc(rest, v1) == spec_count_inc(ops, v1));
                assert(spec_count_inc(rest, v2) == spec_count_inc(ops, v2));
                lemma_backfill_run(
                    rows0, rest, cid, formats, cards, sc, cc, fid, v1, v2, s1, s2,
                );
            },
            BackfillOp::Inc(v) => {
                if v == v1 {
                    assert(spec_count_inc(ops, v1) >= 1);
                    assert(!s1);
                    let next = spec_increment(state, v1, cid, cc, sc, fid);
                    if s2 {
                        lemma_increment_commute(base, cid, sc, cc, fid, v2, v1);
                        assert(next == spec_backfill_canonical(
                            rows0, cid, formats, cards, sc, cc, fid, v1, v2, true, true,
                        ));
                    } else {
                        assert(next == spec_backfill_canonical(
                            rows0, cid, formats, cards, sc, cc, fid, v1, v2, true, false,
                        ));
                    }
                    assert(spec_count_inc(rest, v1) == 0);
                    assert(spec_count_inc(rest, v2) == spec_count_inc(ops, v2));
                    lemma_backfill_run(
                        rows0, rest, cid, formats, cards, sc, cc, fid, v1, v2, true, s2,
                    );
                } else {
                    assert(v == v2);
                    assert(spec_count_inc(ops, v2) >= 1);
                    assert(!s2);
                    let next = spec_increment(state, v2, cid, cc, sc, fid);
                    assert(next == spec_backfill_canonical(
                        rows0, cid, formats, cards, sc, cc, fid, v1, v2, s1, true,
                    ));
                    assert(spec_count_inc(rest, v2) == 0);
                    assert(spec_count_inc(rest, v1) == spec_count_inc(ops, v1));
                    lemma_backfill_run(
                        rows0, rest, cid, formats, cards, sc, cc, fid, v1, v2, s1, true,
                    );
                }
            },
        }
    }
}

/// Backfill idempotence: two callers concurrently backfilling the same
/// previously-unknown, plausible tuple — their storage calls interleaved
/// in any order in which each caller's landing increment follows an
/// insert — leave exactly one row per format of the collection, and the
/// tuple's row carries both ratings, one count each: no duplicate rows,
/// no lost increment.
pub proof fn lemma_backfill_idempotence(
    rows0: Seq<EntryModel>,
    ops: Seq<BackfillOp>,
    cid: Seq<char>,
    formats: Seq<Seq<char>>,
    cards: Seq<CardModel>,
    sc: Seq<char>,
    cc: Seq<char>,
    fid: Seq<char>,
    v1: RatingsValue,
    v2: RatingsValue,
)
    requires
        spec_unique_keys(rows0),
        !spec_has_entry(rows0, cid, sc, cc, fid),
        v1 != v2,
        cards == seq![CardModel { set: sc, collector_number: cc }],
        formats.contains(fid),
        ops.len() >= 1,
        ops[0] == BackfillOp::Insert,
        forall|w: int|
            0 <= w < ops.len() ==> ops[w] == BackfillOp::Insert || ops[w] == BackfillOp::Inc(v1)
                || ops[w] == BackfillOp::Inc(v2),
        spec_count_inc(ops, v1) == 1,
        spec_count_inc(ops, v2) == 1,
    ensures
        ({
            let fin = spec_apply_ops(rows0, ops, cid, formats, cards, sc, cc, fid);
            let base = spec_insert_entries(rows0, cid, formats, cards);
            &&& fin == spec_increment(
                spec_increment(base, v1, cid, cc, sc, fid),
                v2,
                cid,
                cc,
                sc,
                fid,
            )
            &&& spec_unique_keys(fin)
            &&& forall|f: int|
                0 <= f < formats.len() ==> spec_has_entry(fin, cid, sc, cc, formats[f])
            &&& ({
                let i = spec_entry_index(fin, cid, sc, cc, fid);
                spec_rating_count(fin[i], v1) + spec_rating_count(fin[i], v2) == 2
            })
        }),
{
    let base = spec_insert_entries(rows0, cid, formats, cards);
    let rest = ops.drop_first();
    assert(forall|w: int| 0 <= w < rest.len() ==> rest[w] == ops[w + 1]);
    assert(spec_count_inc(rest, v1) == 1);
    assert(spec_count_inc(rest, v2) == 1);
    assert(spec_apply_ops(rows0, ops, cid, formats, cards, sc, cc, fid) == spec_apply_ops(
        base,
        rest,
        cid,
        formats,
        cards,
        sc,
        cc,
        fid,
    ));
    assert(base == spec_backfill_canonical(
        rows0, cid, formats, cards, sc, cc, fid, v1, v2, false, false,
    ));
    lemma_backfill_run(rows0, rest, cid, formats, cards, sc, cc, fid, v1, v2, false, false);
    let fin = spec_apply_ops(rows0, ops, cid, formats, cards, sc, cc, fid);
    let once = spec_increment(base, v1, cid, cc, sc, fid);
    assert(fin == spec_increment(once, v2, cid, cc, sc, fid));
    lemma_insert_entries_adds(rows0, cid, formats, cards);
    assert(cards[0] == CardModel { set: sc, collector_number: cc });
    assert(spec_has_entry(base, cid, sc, cc, fid));
    lemma_insert_preserves_unique(rows0, cid, formats, cards);
    lemma_increment_preserves_keys(base, v1, cid, cc, sc, fid);
    lemma_increment_preserves_keys(once, v2, cid, cc, sc, fid);
    assert(fin.len() == base.len());
    assert(forall|j: int| 0 <= j < base.len() ==> spec_same_key(fin[j], base[j]));
    assert(spec_unique_keys(fin)) by {
        assert forall|i: int, j: int| 0 <= i < j < fin.len() implies !spec_same_key(
            fin[i],
            fin[j],
        ) by {
            assert(spec_same_key(fin[i], base[i]));
            assert(spec_same_key(fin[j], base[j]));
            assert(!spec_same_key(base[i], base[j]));
        }
    }
    assert forall|f: int| 0 <= f < formats.len() implies spec_has_entry(
        fin,
        cid,
        sc,
        cc,
        formats[f],
    ) by {
        lemma_same_keys_has(base, fin, cid, sc, cc, formats[f]);
    }
    lemma_entry_index(base, cid, sc, cc, fid);
    let i0 = spec_entry_index(base, cid, sc, cc, fid);
    lemma_entry_index_same_keys(base, once, cid, sc, cc, fid);
    lemma_entry_index_same_keys(base, fin, cid, sc, cc, fid);
    lemma_same_keys_has(base, once, cid, sc, cc, fid);
    assert(once[i0] == spec_bump(base[i0], v1));
    assert(fin[i0] == spec_bump(spec_bump(base[i0], v1), v2));
    assert(spec_zero_counters(base[i0])) by {
        lemma_insert_entries_rows(rows0, cid, formats, cards);
        if rows0.contains(base[i0]) {
            let w = choose|w: int| 0 <= w < rows0.len() && rows0[w] == base[i0];
            assert(spec_key_matches(rows0[w], cid, sc, cc, fid));
        }
    }
}

} // verus!

verus! {

proof fn lemma_rows_of_key_sets(
    rows: Seq<EntryModel>,
    cid: Seq<char>,
    sc: Seq<char>,
    cc: Seq<char>,
    j: int,
)
    ensures
        forall|w: int|
            0 <= w < spec_rows_of_key(rows, cid, sc, cc, j).len() ==> spec_rows_of_key(
                rows,
                cid,
                sc,
                cc,
                j,
            )[w].set_code == sc,
    decreases rows.len() - j,
{
    if j < 0 || j >= rows.len() {
    } else {
        lemma_rows_of_key_sets(rows, cid, sc, cc, j + 1);
        let res = spec_rows_of_key(rows, cid, sc, cc, j);
        let rest = spec_rows_of_key(rows, cid, sc, cc, j + 1);
        assert forall|w: int| 0 <= w < res.len() implies res[w].set_code == sc by {
            if rows[j].collection_id == cid && rows[j].set_code == sc && rows[j].card_code
                == cc {
                if w > 0 {
                    assert(res[w] == rest[w - 1]);
                }
            } else {
                assert(res[w] == rest[w]);
            }
        }
    }
}

proof fn lemma_groups_at_rank_ranks(
    rows: Seq<EntryModel>,
    cid: Seq<char>,
    so: Seq<Seq<char>>,
    rk: int,
    j: int,
)
    ensures
        forall|w: int|
            0 <= w < spec_groups_at_rank(rows, cid, so, rk, j).len() ==> spec_rank(
                so,
                spec_groups_at_rank(rows, cid, so, rk, j)[w].set_code,
            ) == rk,
    decreases rows.len() - j,
{
    if j < 0 || j >= rows.len() {
    } else {
        lemma_groups_at_rank_ranks(rows, cid, so, rk, j + 1);
        let res = spec_groups_at_rank(rows, cid, so, rk, j);
        let rest = spec_groups_at_rank(rows, cid, so, rk, j + 1);
        let hit = rows[j].collection_id == cid && spec_rank(so, rows[j].set_code) == rk
            && spec_is_first_key(rows, cid, j);
        assert forall|w: int| 0 <= w < res.len() implies spec_rank(so, res[w].set_code)
            == rk by {
            if hit {
                let own = spec_rows_of_key(rows, cid, rows[j].set_code, rows[j].card_code, 0);
                lemma_rows_of_key_sets(rows, cid, rows[j].set_code, rows[j].card_code, 0);
                if w < own.len() {
                    assert(res[w] == own[w]);
                } else {
                    assert(res[w] == rest[w - own.len()]);
                }
            } else {
                assert(res[w] == rest[w]);
            }
        }
    }
}

proof fn lemma_ranks_from_sorted(
    rows: Seq<EntryModel>,
    cid: Seq<char>,
    so: Seq<Seq<char>>,
    rk: int,
)
    ensures
        forall|w: int|
            0 <= w < spec_ranks_from(rows, cid, so, rk).len() ==> rk <= spec_rank(
                so,
                spec_ranks_from(rows, cid, so, rk)[w].set_code,
            ),
        forall|w1: int, w2: int|
            0 <= w1 <= w2 < spec_ranks_from(rows, cid, so, rk).len() ==> spec_rank(
                so,
                spec_ranks_from(rows, cid, so, rk)[w1].set_code,
            ) <= spec_rank(so, spec_ranks_from(rows, cid, so, rk)[w2].set_code),
    decreases so.len() + 1 - rk,
{
    if rk < 0 || rk > so.len() {
    } else {
        lemma_ranks_from_sorted(rows, cid, so, rk + 1);
        lemma_groups_at_rank_ranks(rows, cid, so, rk, 0);
        let res = spec_ranks_from(rows, cid, so, rk);
        let own = spec_groups_at_rank(rows, cid, so, rk, 0);
        let rest = spec_ranks_from(rows, cid, so, rk + 1);
        assert forall|w: int| 0 <= w < res.len() implies rk <= spec_rank(
            so,
            res[w].set_code,
        ) by {
            if w < own.len() {
                assert(res[w] == own[w]);
            } else {
                assert(res[w] == rest[w - own.len()]);
            }
        }
        assert forall|w1: int, w2: int| 0 <= w1 <= w2 < res.len() implies spec_rank(
            so,
            res[w1].set_code,
        ) <= spec_rank(so, res[w2].set_code) by {
            if w1 < own.len() {
                assert(res[w1] == own[w1]);
                if w2 < own.len() {
                    assert(res[w2] == own[w2]);
                } else {
                    assert(res[w2] == rest[w2 - own.len()]);
                }
            } else {
                assert(res[w1] == rest[w1 - own.len()]);
                assert(res[w2] == rest[w2 - own.len()]);
            }
        }
    }
}

/// Display order: the read path lists rows by their set's position in the
/// display order, listed sets first in their given order, and rows of any
/// set absent from the order after all listed ones.
pub proof fn lemma_get_ratings_ordered(
    rows: Seq<EntryModel>,
    cid: Seq<char>,
    so: Seq<Seq<char>>,
)
    ensures
        forall|w1: int, w2: int|
            0 <= w1 <= w2 < spec_get_ratings(rows, cid, so).len() ==> spec_rank(
                so,
                spec_get_ratings(rows, cid, so)[w1].set_code,
            ) <= spec_rank(so, spec_get_ratings(rows, cid, so)[w2].set_code),
{
    lemma_ranks_from_sorted(rows, cid, so, 0);
}

} // verus!

verus! {

/// The (set, card) key of a reported row.
pub open spec fn spec_row_key(s: SchemaModel) -> (Seq<char>, Seq<char>) {
    (s.set_code, s.card_code)
}

/// Rows of one card stand adjacent: between two rows of a key no row of
/// another key appears.
pub open spec fn spec_grouped(s: Seq<SchemaModel>) -> bool {
    forall|w1: int, w2: int, w3: int|
        0 <= w1 < w2 < w3 < s.len() && spec_row_key(s[w1]) == spec_row_key(s[w3])
            ==> spec_row_key(s[w2]) == spec_row_key(s[w1])
}

pub open spec fn spec_key_occurs(s: Seq<SchemaModel>, k: (Seq<char>, Seq<char>)) -> bool {
    exists|w: int| 0 <= w < s.len() && spec_row_key(s[w]) == k
}

proof fn lemma_rows_of_key_homogeneous(
    rows: Seq<EntryModel>,
    cid: Seq<char>,
    sc: Seq<char>,
    cc: Seq<char>,
    j: int,
)
    ensures
        forall|w: int|
            0 <= w < spec_rows_of_key(rows, cid, sc, cc, j).len() ==> spec_row_key(
                spec_rows_of_key(rows, cid, sc, cc, j)[w],
            ) == (sc, cc),
    decreases rows.len() - j,
{
    if j < 0 || j >= rows.len() {
    } else {
        lemma_rows_of_key_homogeneous(rows, cid, sc, cc, j + 1);
        let res = spec_rows_of_key(rows, cid, sc, cc, j);
        let rest = spec_rows_of_key(rows, cid, sc, cc, j + 1);
        assert forall|w: int| 0 <= w < res.len() implies spec_row_key(res[w]) == (sc, cc) by {
            if rows[j].collection_id == cid && rows[j].set_code == sc && rows[j].card_code
                == cc {
                if w > 0 {
                    assert(res[w] == rest[w - 1]);
                }
            } else {
                assert(res[w] == rest[w]);
            }
        }
    }
}

proof fn lemma_groups_at_rank_grouped(
    rows: Seq<EntryModel>,
    cid: Seq<char>,
    so: Seq<Seq<char>>,
    rk: int,
    j: int,
)
    ensures
        spec_grouped(spec_groups_at_rank(rows, cid, so, rk, j)),
        forall|k: (Seq<char>, Seq<char>)|
            spec_key_occurs(spec_groups_at_rank(rows, cid, so, rk, j), k) ==> exists|j2: int|
                j <= j2 < rows.len() && rows[j2].collection_id == cid && #[trigger] spec_is_first_key(
                    rows,
                    cid,
                    j2,
                ) && spec_rank(so, rows[j2].set_code) == rk && (rows[j2].set_code, rows[j2].card_code) == k,
    decreases rows.len() - j,
{
    if j < 0 || j >= rows.len() {
    } else {
        lemma_groups_at_rank_grouped(rows, cid, so, rk, j + 1);
        let res = spec_groups_at_rank(rows, cid, so, rk, j);
        let rest = spec_groups_at_rank(rows, cid, so, rk, j + 1);
        let hit = rows[j].collection_id == cid && spec_rank(so, rows[j].set_code) == rk
            && spec_is_first_key(rows, cid, j);
        if hit {
            let own = spec_rows_of_key(rows, cid, rows[j].set_code, rows[j].card_code, 0);
            let kj = (rows[j].set_code, rows[j].card_code);
            lemma_rows_of_key_homogeneous(rows, cid, rows[j].set_code, rows[j].card_code, 0);
            assert(!spec_key_occurs(rest, kj)) by {
                if spec_key_occurs(rest, kj) {
                    let j2 = choose|j2: int|
                        j + 1 <= j2 < rows.len() && rows[j2].collection_id == cid
                            && #[trigger] spec_is_first_key(rows, cid, j2) && spec_rank(
                            so,
                            rows[j2].set_code,
                        ) == rk && (rows[j2].set_code, rows[j2].card_code) == kj;
                    assert(!(rows[j].collection_id == cid && rows[j].set_code
                        == rows[j2].set_code && rows[j].card_code == rows[j2].card_code));
                }
            }
            assert forall|w1: int, w2: int, w3: int|
                0 <= w1 < w2 < w3 < res.len() && spec_row_key(res[w1]) == spec_row_key(
                    res[w3],
                ) implies spec_row_key(res[w2]) == spec_row_key(res[w1]) by {
                if w3 < own.len() {
                    assert(spec_row_key(res[w1]) == kj && spec_row_key(res[w2]) == kj);
                } else if w1 >= own.len() {
                    assert(res[w1] == rest[w1 - own.len()]);
                    assert(res[w2] == rest[w2 - own.len()]);
                    assert(res[w3] == rest[w3 - own.len()]);
                } else {
                    assert(res[w1] == own[w1]);
                    assert(spec_row_key(res[w1]) == kj);
                    assert(res[w3] == rest[w3 - own.len()]);
                    assert(spec_key_occurs(rest, spec_row_key(res[w3])));
                }
            }
            assert forall|k: (Seq<char>, Seq<char>)| spec_key_occurs(res, k) implies exists|
                j2: int,
            |
                j <= j2 < rows.len() && rows[j2].collection_id == cid
                    && #[trigger] spec_is_first_key(rows, cid, j2) && spec_rank(
                    so,
                    rows[j2].set_code,
                ) == rk && (rows[j2].set_code, rows[j2].card_code) == k by {
                let w = choose|w: int| 0 <= w < res.len() && spec_row_key(res[w]) == k;
                if w < own.len() {
                    assert(res[w] == own[w]);
                    assert(k == kj);
                    assert(j <= j < rows.len() && rows[j].collection_id == cid
                        && spec_is_first_key(rows, cid, j) && spec_rank(so, rows[j].set_code)
                        == rk && (rows[j].set_code, rows[j].card_code) == k);
                } else {
                    assert(res[w] == rest[w - own.len()]);
                    assert(spec_key_occurs(rest, k));
                    let j2 = choose|j2: int|
                        j + 1 <= j2 < rows.len() && rows[j2].collection_id == cid
                            && #[trigger] spec_is_first_key(rows, cid, j2) && spec_rank(
                            so,
                            rows[j2].set_code,
                        ) == rk && (rows[j2].set_code, rows[j2].card_code) == k;
                    assert(j <= j2);
                }
            }
        } else {
            assert(res == rest);
            assert forall|k: (Seq<char>, Seq<char>)| spec_key_occurs(res, k) implies exists|
                j2: int,
            |
                j <= j2 < rows.len() && rows[j2].collection_id == cid
                    && #[trigger] spec_is_first_key(rows, cid, j2) && spec_rank(
                    so,
                    rows[j2].set_code,
                ) == rk && (rows[j2].set_code, rows[j2].card_code) == k by {
                let j2 = choose|j2: int|
                    j + 1 <= j2 < rows.len() && rows[j2].collection_id == cid
                        && #[trigger] spec_is_first_key(rows, cid, j2) && spec_rank(
                        so,
                        rows[j2].set_code,
                    ) == rk && (rows[j2].set_code, rows[j2].card_code) == k;
                assert(j <= j2);
            }
        }
    }
}

proof fn lemma_ranks_from_grouped(
    rows: Seq<EntryModel>,
    cid: Seq<char>,
    so: Seq<Seq<char>>,
    rk: int,
)
    ensures
        spec_grouped(spec_ranks_from(rows, cid, so, rk)),
        forall|k: (Seq<char>, Seq<char>)|
            #[trigger] spec_key_occurs(spec_ranks_from(rows, cid, so, rk), k) ==> rk
                <= spec_rank(so, k.0),
    decreases so.len() + 1 - rk,
{
    if rk < 0 || rk > so.len() {
    } else {
        lemma_ranks_from_grouped(rows, cid, so, rk + 1);
        lemma_groups_at_rank_grouped(rows, cid, so, rk, 0);
        lemma_groups_at_rank_ranks(rows, cid, so, rk, 0);
        let res = spec_ranks_from(rows, cid, so, rk);
        let own = spec_groups_at_rank(rows, cid, so, rk, 0);
        let rest = spec_ranks_from(rows, cid, so, rk + 1);
        assert forall|w1: int, w2: int, w3: int|
            0 <= w1 < w2 < w3 < res.len() && spec_row_key(res[w1]) == spec_row_key(
                res[w3],
            ) implies spec_row_key(res[w2]) == spec_row_key(res[w1]) by {
            if w3 < own.len() {
                assert(res[w1] == own[w1] && res[w2] == own[w2] && res[w3] == own[w3]);
            } else if w1 >= own.len() {
                assert(res[w1] == rest[w1 - own.len()]);
                assert(res[w2] == rest[w2 - own.len()]);
                assert(res[w3] == rest[w3 - own.len()]);
            } else {
                assert(res[w1] == own[w1]);
                assert(res[w3] == rest[w3 - own.len()]);
                assert(spec_rank(so, spec_row_key(res[w1]).0) == rk);
                assert(spec_key_occurs(rest, spec_row_key(res[w3])));
                assert(rk + 1 <= spec_rank(so, spec_row_key(res[w3]).0));
            }
        }
        assert forall|k: (Seq<char>, Seq<char>)| #[trigger] spec_key_occurs(res, k) implies rk
            <= spec_rank(so, k.0) by {
            let w = choose|w: int| 0 <= w < res.len() && spec_row_key(res[w]) == k;
            if w < own.len() {
                assert(res[w] == own[w]);
            } else {
                assert(res[w] == rest[w - own.len()]);
                assert(spec_key_occurs(rest, k));
            }
        }
    }
}

/// Grouping: in the read path's result the rows of one (set, card) stand
/// adjacent — between two rows of a card no row of another card appears.
pub proof fn lemma_get_ratings_grouped(
    rows: Seq<EntryModel>,
    cid: Seq<char>,
    so: Seq<Seq<char>>,
)
    ensures
        spec_grouped(spec_get_ratings(rows, cid, so)),
{
    lemma_ranks_from_grouped(rows, cid, so, 0);
}

} // verus!
