//! The persisted price database, the listing entry of the watch forum,
//! and the pure decisions of the resumable crawl: reconciliation of
//! freshly scraped entries against the stored ones, convergence
//! tracking, checkpoint cadence, and the finalization pass that
//! deduplicates by id and orders entries by timestamp.

use vstd::prelude::*;
use vstd::pervasive::VecAdditionalExecFns;

use crate::currency::{ascii_lower, usd_outcome, CurrencyRateTable};
use crate::error::WatchError;
use crate::text::{contains_seq, contains_chars, str_to_chars, u64_to_string, dec_str};
use crate::tokenize::{lower_of, lowercase};

verus! {

/// Forum section that lists Rolex watches only.
pub const ROLEX_FORUMS_ID_ROLEX_ONLY: usize = 9;

/// Forum section that lists the other brands.
pub const ROLEX_FORUMS_ID_NON_ROLEX: usize = 40;

/// A named, persisted collection of entries with a last-save timestamp
/// and the resumable cursor: the next page to fetch, zero when idle.
pub struct PriceDatabase<T> {
    pub name: String,
    pub timestamp: i64,
    pub entries: Vec<T>,
    pub position: usize,
}

/// One identified listing of the watch forum.
pub struct RolexForumsEntry {
    pub id: u64,
    pub timestamp: i64,
    pub price: Option<u32>,
    pub is_sold: bool,
    pub brand: String,
    pub model_no: String,
}

/// The mathematical content of one listing entry.
pub ghost struct EntryView {
    pub id: u64,
    pub timestamp: i64,
    pub price: Option<u32>,
    pub is_sold: bool,
    pub brand: Seq<char>,
    pub model_no: Seq<char>,
}

impl View for RolexForumsEntry {
    type V = EntryView;

    open spec fn view(&self) -> EntryView {
        EntryView {
            id: self.id,
            timestamp: self.timestamp,
            price: self.price,
            is_sold: self.is_sold,
            brand: self.brand@,
            model_no: self.model_no@,
        }
    }
}

impl DeepView for RolexForumsEntry {
    type V = EntryView;

    open spec fn deep_view(&self) -> EntryView {
        self.view()
    }
}

impl RolexForumsEntry {
    /// The thread address of this listing on the forum.
    pub fn link(&self) -> (r: String)
        ensures
            r@ == "https://www.rolexforums.com/showthread.php?t="@ + dec_str(self.id as nat),
    {
        let mut s: String = String::from_str("https://www.rolexforums.com/showthread.php?t=");
        let digits: String = u64_to_string(self.id);
        s.append(digits.as_str());
        s
    }

    /// The thread address of this listing on the forum.
    pub fn url(&self) -> (r: String)
        ensures
            r@ == "https://www.rolexforums.com/showthread.php?t="@ + dec_str(self.id as nat),
    {
        self.link()
    }

    /// A field-for-field copy of the entry.
    pub fn duplicate(&self) -> (r: RolexForumsEntry)
        ensures
            r@ == self@,
    {
        RolexForumsEntry {
            id: self.id,
            timestamp: self.timestamp,
            price: self.price,
            is_sold: self.is_sold,
            brand: self.brand.clone(),
            model_no: self.model_no.clone(),
        }
    }
}

/// One crawler over a section of the watch forum: the section id and
/// the database the crawl exclusively owns for its run.
pub struct RolexForums {
    pub forum_id: usize,
    pub db: PriceDatabase<RolexForumsEntry>,
}

impl Default for RolexForums {
    /// An idle crawler of no particular section with an empty database.
    fn default() -> (r: RolexForums)
        ensures
            r.forum_id == 0,
            r.db.name@ == "RolexForums"@,
            r.db.timestamp == 0,
            r.db.entries@.len() == 0,
            r.db.position == 0,
    {
        RolexForums {
            forum_id: 0,
            db: PriceDatabase {
                name: String::from_str("RolexForums"),
                timestamp: 0,
                entries: Vec::new(),
                position: 0,
            },
        }
    }
}

impl RolexForums {
    /// A crawler over the given forum section, whose database is named
    /// after the section.
    pub fn new(forum_id: usize) -> (r: RolexForums)
        ensures
            r.forum_id == forum_id,
            r.db.name@ == "RolexForums"@ + "_"@ + dec_str(forum_id as nat),
            r.db.timestamp == 0,
            r.db.entries@.len() == 0,
            r.db.position == 0,
    {
        let mut d: RolexForums = RolexForums::default();
        d.forum_id = forum_id;
        d.db.name.append("_");
        let digits: String = u64_to_string(forum_id as u64);
        d.db.name.append(digits.as_str());
        d
    }
}

/// A stub entry of a not-yet-supported forum.
pub struct OtherEntry {
    pub post_id: u64,
    pub timestamp: i64,
    pub is_sold: bool,
}

/// A stub forum source that currently crawls nothing.
pub struct OtherForum {
    pub db: PriceDatabase<OtherEntry>,
}

impl Default for OtherForum {
    /// An idle stub crawler with an empty database.
    fn default() -> (r: OtherForum)
        ensures
            r.db.name@ == "OtherForum"@,
            r.db.timestamp == 0,
            r.db.entries@.len() == 0,
            r.db.position == 0,
    {
        OtherForum {
            db: PriceDatabase {
                name: String::from_str("OtherForum"),
                timestamp: 0,
                entries: Vec::new(),
                position: 0,
            },
        }
    }
}

/// A forum source that can bring its database up to date.
pub trait Scraper {
    /// Runs one update pass over the source.
    fn update(&mut self) -> Result<(), WatchError>;
}

impl Scraper for OtherForum {
    /// The stub source has nothing to update.
    fn update(&mut self) -> Result<(), WatchError> {
        Ok(())
    }
}

/// The first index holding the id, from `k` on.
pub open spec fn idx_of_from(s: Seq<EntryView>, id: u64, k: int) -> Option<int>
    decreases s.len() - k,
    when 0 <= k
{
    if k >= s.len() {
        None
    } else if s[k].id == id {
        Some(k)
    } else {
        idx_of_from(s, id, k + 1)
    }
}

/// The first index holding the id, if any.
pub open spec fn idx_of(s: Seq<EntryView>, id: u64) -> Option<int> {
    idx_of_from(s, id, 0)
}

/// What the first-index search promises, from `k` on.
pub proof fn lemma_idx_of_from_props(s: Seq<EntryView>, id: u64, k: int)
    requires
        0 <= k,
    ensures
        match idx_of_from(s, id, k) {
            Some(j) => k <= j < s.len() && s[j].id == id && (forall|m: int|
                k <= m < j ==> s[m].id != id),
            None => forall|m: int| k <= m < s.len() ==> s[m].id != id,
        },
    decreases s.len() - k,
{
    if k < s.len() && s[k].id != id {
        lemma_idx_of_from_props(s, id, k + 1);
    }
}

/// Deduplication by id, last write wins: a later entry replaces the
/// earlier entry of the same id in place; a fresh id is appended.
pub open spec fn dedup_by_id_spec(s: Seq<EntryView>) -> Seq<EntryView>
    decreases s.len(),
{
    if s.len() == 0 {
        Seq::empty()
    } else {
        let rest = dedup_by_id_spec(s.drop_last());
        match idx_of(rest, s.last().id) {
            Some(j) => rest.update(j, s.last()),
            None => rest.push(s.last()),
        }
    }
}

/// Every id occurs at most once in the sequence.
pub open spec fn unique_ids(s: Seq<EntryView>) -> bool {
    forall|i: int, j: int| 0 <= i < j < s.len() ==> #[trigger] s[i].id != #[trigger] s[j].id
}

/// Deduplication leaves every id at most once.
pub proof fn lemma_dedup_unique(s: Seq<EntryView>)
    ensures
        unique_ids(dedup_by_id_spec(s)),
    decreases s.len(),
{
    if s.len() > 0 {
        lemma_dedup_unique(s.drop_last());
        let rest = dedup_by_id_spec(s.drop_last());
        lemma_idx_of_from_props(rest, s.last().id, 0);
    }
}

/// On a sequence whose ids are already unique, deduplication changes
/// nothing.
pub proof fn lemma_dedup_of_unique(s: Seq<EntryView>)
    requires
        unique_ids(s),
    ensures
        dedup_by_id_spec(s) == s,
    decreases s.len(),
{
    if s.len() > 0 {
        assert(unique_ids(s.drop_last())) by {
            assert(forall|i: int, j: int|
                0 <= i < j < s.len() - 1 ==> #[trigger] s.drop_last()[i].id != #[trigger] s.drop_last()[j].id);
        }
        lemma_dedup_of_unique(s.drop_last());
        lemma_idx_of_from_props(s.drop_last(), s.last().id, 0);
        assert(idx_of(s.drop_last(), s.last().id) is None) by {
            if idx_of(s.drop_last(), s.last().id) is Some {
                let j = idx_of(s.drop_last(), s.last().id).unwrap();
                assert(s.drop_last()[j].id == s.last().id);
                assert(s[j].id == s[s.len() - 1].id);
            }
        }
        assert(s.drop_last().push(s.last()) =~= s);
    }
}

/// Deduplication by id is idempotent: a second pass over an already
/// deduplicated sequence returns it unchanged.
pub proof fn lemma_dedup_idempotent(s: Seq<EntryView>)
    ensures
        dedup_by_id_spec(dedup_by_id_spec(s)) == dedup_by_id_spec(s),
{
    lemma_dedup_unique(s);
    lemma_dedup_of_unique(dedup_by_id_spec(s));
}

/// Whether the entry at `j` carries a timestamp at most `ts`.
fn ts_le_at(v: &Vec<RolexForumsEntry>, j: usize, ts: i64) -> (r: bool)
    requires
        j < v@.len(),
    ensures
        r == (v.deep_view()[j as int].timestamp <= ts),
{
    proof {
        assert(v.deep_view()[j as int] == v@[j as int]@);
    }
    v[j].timestamp <= ts
}

/// The first index of `v` holding the id, executably.
fn find_entry_idx(v: &Vec<RolexForumsEntry>, id: u64) -> (r: Option<usize>)
    ensures
        match r {
            Some(j) => idx_of(v.deep_view(), id) == Some(j as int) && j < v@.len(),
            None => idx_of(v.deep_view(), id) is None,
        },
{
    let ghost dv = v.deep_view();
    let mut i: usize = 0;
    while i < v.len()
        invariant
            dv == v.deep_view(),
            dv.len() == v@.len(),
            i <= v@.len(),
            idx_of(dv, id) == idx_of_from(dv, id, i as int),
        decreases v@.len() - i,
    {
        proof {
            assert(dv[i as int] == v@[i as int]@);
        }
        if v[i].id == id {
            return Some(i);
        }
        i = i + 1;
    }
    None
}

/// Removes duplicate ids from the entries, last write wins, keeping
/// first-appearance order, exactly as `dedup_by_id_spec` describes.
pub fn dedup_by_id(entries: &mut Vec<RolexForumsEntry>)
    ensures
        final(entries).deep_view() == dedup_by_id_spec(old(entries).deep_view()),
{
    let ghost sv = entries.deep_view();
    let mut out: Vec<RolexForumsEntry> = Vec::new();
    proof {
        assert(sv.subrange(0, 0) =~= Seq::<EntryView>::empty());
        assert(out.deep_view() =~~= dedup_by_id_spec(sv.subrange(0, 0)));
    }
    let mut i: usize = 0;
    while i < entries.len()
        invariant
            sv == entries.deep_view(),
            sv.len() == entries@.len(),
            i <= entries@.len(),
            out.deep_view() == dedup_by_id_spec(sv.subrange(0, i as int)),
        decreases entries@.len() - i,
    {
        let e: RolexForumsEntry = entries[i].duplicate();
        proof {
            assert(sv[i as int] == entries@[i as int]@);
            let pre = sv.subrange(0, i + 1);
            assert(pre.drop_last() =~= sv.subrange(0, i as int));
            assert(pre.last() == sv[i as int]);
        }
        let ghost before = out.deep_view();
        match find_entry_idx(&out, e.id) {
            Some(j) => {
                out.set(j, e);
                proof {
                    assert(out.deep_view() =~~= before.update(j as int, sv[i as int]));
                }
            },
            None => {
                out.push(e);
                proof {
                    assert(out.deep_view() =~~= before.push(sv[i as int]));
                }
            },
        }
        i = i + 1;
    }
    proof {
        assert(sv.subrange(0, sv.len() as int) =~= sv);
    }
    *entries = out;
}

/// Timestamps never decrease along the sequence.
pub open spec fn sorted_by_ts(s: Seq<EntryView>) -> bool {
    forall|i: int, j: int| 0 <= i <= j < s.len() ==> #[trigger] s[i].timestamp <= #[trigger] s[j].timestamp
}

/// The ids of the entries, in order.
pub open spec fn ids_of(s: Seq<EntryView>) -> Seq<u64> {
    s.map_values(|e: EntryView| e.id)
}

/// Sorts the entries by timestamp, ascending. The result is a
/// permutation of the input: the multiset of entries, and so the
/// multiset of ids, is unchanged.
pub fn sort_by_timestamp(entries: &mut Vec<RolexForumsEntry>)
    ensures
        sorted_by_ts(final(entries).deep_view()),
        final(entries).deep_view().to_multiset() == old(entries).deep_view().to_multiset(),
        ids_of(final(entries).deep_view()).to_multiset() == ids_of(
            old(entries).deep_view(),
        ).to_multiset(),
{
    broadcast use vstd::seq_lib::group_to_multiset_ensures;
    broadcast use vstd::seq_lib::to_multiset_insert;

    let ghost sv = entries.deep_view();
    let mut out: Vec<RolexForumsEntry> = Vec::new();
    proof {
        assert(sv.subrange(0, 0) =~= Seq::<EntryView>::empty());
        assert(out.deep_view() =~~= Seq::<EntryView>::empty());
        assert(out.deep_view().to_multiset() =~= sv.subrange(0, 0).to_multiset());
        assert(ids_of(out.deep_view()) =~= ids_of(sv.subrange(0, 0)));
    }
    let mut i: usize = 0;
    while i < entries.len()
        invariant
            sv == entries.deep_view(),
            sv.len() == entries@.len(),
            i <= entries@.len(),
            out@.len() == i,
            sorted_by_ts(out.deep_view()),
            out.deep_view().to_multiset() == sv.subrange(0, i as int).to_multiset(),
            ids_of(out.deep_view()).to_multiset() == ids_of(sv.subrange(0, i as int)).to_multiset(),
        decreases entries@.len() - i,
    {
        let e: RolexForumsEntry = entries[i].duplicate();
        proof {
            assert(sv[i as int] == entries@[i as int]@);
        }
        let mut pos: usize = 0;
        while pos < out.len() && ts_le_at(&out, pos, e.timestamp)
            invariant
                out@.len() == out.len(),
                pos <= out@.len(),
                forall|k: int| 0 <= k < pos ==> out.deep_view()[k].timestamp <= e@.timestamp,
            decreases out@.len() - pos,
        {
            proof {
                assert(out.deep_view()[pos as int] == out@[pos as int]@);
            }
            pos = pos + 1;
        }
        proof {
            if pos < out@.len() {
                assert(out.deep_view()[pos as int] == out@[pos as int]@);
            }
        }
        let ghost before = out.deep_view();
        out.insert(pos, e);
        proof {
            let ev = sv[i as int];
            assert(out.deep_view() =~~= before.insert(pos as int, ev));
            vstd::seq_lib::to_multiset_insert(before, pos as int, ev);
            let pre = sv.subrange(0, i + 1);
            assert(pre.drop_last() =~= sv.subrange(0, i as int));
            assert(pre.last() == ev);
            assert(pre =~= sv.subrange(0, i as int).push(ev));
            sv.subrange(0, i as int).to_multiset_ensures();
            assert(out.deep_view().to_multiset() =~= before.to_multiset().insert(ev));
            assert(pre.to_multiset() =~= sv.subrange(0, i as int).to_multiset().insert(ev));
            assert(ids_of(out.deep_view()) =~= ids_of(before).insert(pos as int, ev.id));
            vstd::seq_lib::to_multiset_insert(ids_of(before), pos as int, ev.id);
            assert(ids_of(pre) =~= ids_of(sv.subrange(0, i as int)).push(ev.id));
            ids_of(sv.subrange(0, i as int)).to_multiset_ensures();
            assert(ids_of(out.deep_view()).to_multiset() =~= ids_of(before).to_multiset().insert(
                ev.id,
            ));
            assert(ids_of(pre).to_multiset() =~= ids_of(sv.subrange(0, i as int)).to_multiset()
                .insert(ev.id));
            assert(sorted_by_ts(out.deep_view())) by {
                let d = out.deep_view();
                assert(forall|k: int| 0 <= k < pos ==> d[k] == before[k]);
                assert(forall|k: int| pos < k < d.len() ==> d[k] == before[k - 1]);
                assert(forall|k: int|
                    pos <= k < before.len() ==> before[pos as int].timestamp <= #[trigger] before[k].timestamp);
            }
        }
        i = i + 1;
    }
    proof {
        assert(sv.subrange(0, sv.len() as int) =~= sv);
    }
    *entries = out;
}

/// How one freshly scraped entry relates to the stored entries.
pub enum ReconcileOutcome {
    /// The id was unknown; the entry was appended at this index and
    /// needs its detail pass.
    New(usize),
    /// The id was known with a different timestamp; the stored entry
    /// at this index was overwritten and needs its detail pass.
    Updated(usize),
    /// The id was known with the same timestamp; nothing changed.
    Unchanged,
}

/// Reconciles one scraped entry against the database by id: an unknown
/// id is appended, a known id with a different timestamp is
/// overwritten in place, a known id with the same timestamp is left
/// untouched and reported as unchanged.
pub fn reconcile_entry(db: &mut PriceDatabase<RolexForumsEntry>, entry: RolexForumsEntry) -> (r:
    ReconcileOutcome)
    ensures
        final(db).name == old(db).name,
        final(db).timestamp == old(db).timestamp,
        final(db).position == old(db).position,
        ({
            let es = old(db).entries.deep_view();
            let fs = final(db).entries.deep_view();
            match idx_of(es, entry.id) {
                None => r == ReconcileOutcome::New(es.len() as usize) && fs == es.push(entry@),
                Some(j) => {
                    if es[j].timestamp != entry.timestamp {
                        r == ReconcileOutcome::Updated(j as usize) && fs == es.update(j, entry@)
                    } else {
                        r == ReconcileOutcome::Unchanged && fs == es
                    }
                },
            }
        }),
{
    let ghost es = db.entries.deep_view();
    match find_entry_idx(&db.entries, entry.id) {
        Some(j) => {
            proof {
                assert(es[j as int] == db.entries@[j as int]@);
            }
            if db.entries[j].timestamp != entry.timestamp {
                db.entries.set(j, entry);
                proof {
                    assert(db.entries.deep_view() =~~= es.update(j as int, entry@));
                }
                ReconcileOutcome::Updated(j)
            } else {
                proof {
                    assert(db.entries.deep_view() =~~= es);
                }
                ReconcileOutcome::Unchanged
            }
        },
        None => {
            let idx: usize = db.entries.len();
            db.entries.push(entry);
            proof {
                assert(db.entries.deep_view() =~~= es.push(entry@));
            }
            ReconcileOutcome::New(idx)
        },
    }
}

/// The in-memory state of one crawl run: the page the crawl is at, the
/// last page the forum reports, and how many consecutive pages carried
/// only unchanged entries.
pub struct CrawlState {
    pub position: usize,
    pub max_page: usize,
    pub unchanged_streak: u32,
}

/// Starts a crawl from a stored cursor: an idle cursor (zero) starts
/// at page one, and the page horizon starts at one thousand or just
/// past the resumed page, whichever is larger.
pub fn crawl_begin(position: usize) -> (s: CrawlState)
    requires
        position < usize::MAX,
    ensures
        s.position == (if position == 0 {
            1usize
        } else {
            position
        }),
        s.max_page == (if s.position + 1 > 1000 {
            s.position + 1
        } else {
            1000
        }),
        s.unchanged_streak == 0,
{
    let pos: usize = if position == 0 {
        1
    } else {
        position
    };
    let max_page: usize = if pos + 1 > 1000 {
        pos + 1
    } else {
        1000
    };
    CrawlState { position: pos, max_page, unchanged_streak: 0 }
}

/// A checkpoint is due before fetching every tenth page.
pub fn should_checkpoint(position: usize) -> (r: bool)
    ensures
        r == (position != 0 && position % 10 == 0),
{
    position != 0 && position % 10 == 0
}

/// Records the outcome of one fetched page: the page horizon follows
/// the forum's report, and the unchanged-page streak grows only when
/// the page held entries and every one of them was unchanged.
pub fn note_page_outcome(st: &mut CrawlState, unchanged: usize, total: usize, new_max: usize)
    requires
        old(st).unchanged_streak < u32::MAX,
    ensures
        final(st).position == old(st).position,
        final(st).max_page == new_max,
        final(st).unchanged_streak == (if unchanged == total && total != 0 {
            old(st).unchanged_streak + 1
        } else {
            0int
        }),
{
    if unchanged == total && total != 0 {
        st.unchanged_streak = st.unchanged_streak + 1;
    } else {
        st.unchanged_streak = 0;
    }
    st.max_page = new_max;
}

/// Moves the crawl to the next page.
pub fn advance_page(st: &mut CrawlState)
    requires
        old(st).position < usize::MAX,
    ensures
        final(st).position == old(st).position + 1,
        final(st).max_page == old(st).max_page,
        final(st).unchanged_streak == old(st).unchanged_streak,
{
    st.position = st.position + 1;
}

/// The crawl has converged once one full page carried only unchanged
/// entries.
pub fn crawl_should_stop(st: &CrawlState) -> (r: bool)
    ensures
        r == (st.unchanged_streak == 1),
{
    st.unchanged_streak == 1
}

/// Pages remain below the reported horizon.
pub fn crawl_has_more(st: &CrawlState) -> (r: bool)
    ensures
        r == (st.position <= st.max_page),
{
    st.position <= st.max_page
}

/// A failed page fetch is retried while fewer than three attempts
/// have been made; after the third the page is abandoned and the
/// crawl moves on.
pub fn should_retry(attempt: u32) -> (r: bool)
    ensures
        r == (attempt < 3),
{
    attempt < 3
}

/// The first three rows of the first page are sticky threads and are
/// never candidates.
pub fn skip_sticky(page: usize, post_index: usize) -> (r: bool)
    ensures
        r == (page == 1 && post_index < 3),
{
    page == 1 && post_index < 3
}

/// Builds the page candidate for an identified post: a fresh, unsold,
/// priceless entry — unless the model number carries a
/// currency-looking `$` artifact, in which case the post is dropped.
pub fn candidate_entry(id: u64, timestamp: i64, brand: String, model_no: String) -> (r: Option<
    RolexForumsEntry,
>)
    ensures
        match r {
            Some(e) => !crate::identify::has_char(model_no@, '$') && e@ == (EntryView {
                id,
                timestamp,
                price: None,
                is_sold: false,
                brand: brand@,
                model_no: model_no@,
            }),
            None => crate::identify::has_char(model_no@, '$'),
        },
{
    let mv: Vec<char> = str_to_chars(model_no.as_str());
    if crate::identify::has_char_exec(&mv, '$') {
        None
    } else {
        Some(RolexForumsEntry { id, timestamp, price: None, is_sold: false, brand, model_no })
    }
}

/// Applies one fragment of a thread's text to the entry: the entry is
/// marked sold when the lowercased fragment mentions `sold` but not
/// `not sold`, and the price is replaced whenever a currency mention
/// of the fragment converts to USD cents at the entry's timestamp.
pub fn apply_detail_text(
    entry: &mut RolexForumsEntry,
    text: &str,
    rates: &CurrencyRateTable,
)
    ensures
        final(entry).id == old(entry).id,
        final(entry).timestamp == old(entry).timestamp,
        final(entry).brand == old(entry).brand,
        final(entry).model_no == old(entry).model_no,
        final(entry).is_sold == (old(entry).is_sold || (contains_seq(
            lower_of(text@),
            seq!['s', 'o', 'l', 'd'],
        ) && !contains_seq(lower_of(text@), seq!['n', 'o', 't', ' ', 's', 'o', 'l', 'd']))),
        match usd_outcome(old(entry).timestamp as int, ascii_lower(text@), rates.deep_view()) {
            Ok(u) => final(entry).price matches Some(p) && p as int == u,
            Err(_) => final(entry).price == old(entry).price,
        },
{
    let lowered: String = lowercase(text);
    let lv: Vec<char> = str_to_chars(lowered.as_str());
    let sold: Vec<char> = vec!['s', 'o', 'l', 'd'];
    let not_sold: Vec<char> = vec!['n', 'o', 't', ' ', 's', 'o', 'l', 'd'];
    proof {
        assert(sold@ =~= seq!['s', 'o', 'l', 'd']);
        assert(not_sold@ =~= seq!['n', 'o', 't', ' ', 's', 'o', 'l', 'd']);
    }
    if contains_chars(&lv, &sold) && !contains_chars(&lv, &not_sold) {
        entry.is_sold = true;
    }
    match crate::currency::extract_currency_to_usd(entry.timestamp, text, rates) {
        Ok(v) => {
            entry.price = Some(v);
        },
        Err(_) => {
        },
    }
}

/// Finalizes a crawl: resets the cursor to idle, removes duplicate ids
/// (last write wins) and sorts the entries by timestamp. Afterwards
/// every id is unique and timestamps never decrease — the invariant of
/// a finalized database.
pub fn finalize_crawl(db: &mut PriceDatabase<RolexForumsEntry>)
    ensures
        final(db).position == 0,
        final(db).name == old(db).name,
        final(db).timestamp == old(db).timestamp,
        final(db).entries.deep_view().to_multiset() == dedup_by_id_spec(
            old(db).entries.deep_view(),
        ).to_multiset(),
        sorted_by_ts(final(db).entries.deep_view()),
        unique_ids(final(db).entries.deep_view()),
{
    db.position = 0;
    let ghost sv = db.entries.deep_view();
    dedup_by_id(&mut db.entries);
    let ghost dv = db.entries.deep_view();
    sort_by_timestamp(&mut db.entries);
    proof {
        lemma_dedup_unique(sv);
        let fv = db.entries.deep_view();
        assert(unique_ids(fv)) by {
            assert(forall|k: int| 0 <= k < dv.len() ==> #[trigger] ids_of(dv)[k] == dv[k].id);
            assert(forall|k: int| 0 <= k < fv.len() ==> #[trigger] ids_of(fv)[k] == fv[k].id);
            assert(ids_of(dv).no_duplicates()) by {
                assert forall|i: int, j: int|
                    0 <= i < dv.len() && 0 <= j < dv.len() && i != j implies ids_of(dv)[i]
                    != ids_of(dv)[j] by {
                    if i < j {
                        assert(dv[i].id != dv[j].id);
                    } else {
                        assert(dv[j].id != dv[i].id);
                    }
                }
            }
            ids_of(dv).lemma_multiset_has_no_duplicates();
            ids_of(fv).lemma_multiset_has_no_duplicates_conv();
            assert forall|i: int, j: int| 0 <= i < j < fv.len() implies #[trigger] fv[i].id
                != #[trigger] fv[j].id by {
                assert(ids_of(fv)[i] != ids_of(fv)[j]);
            }
        }
    }
}

} // verus!
