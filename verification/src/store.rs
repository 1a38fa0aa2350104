//! Appointments and the store that files them by owner.
//!
//! The store maps each owner name to a non-empty sequence of appointments kept
//! in the canonical order: `start` ascending, then `end` ascending, then
//! `description` in codepoint order. An owner whose last appointment is
//! removed disappears from the store entirely; no empty entry persists.

use vstd::prelude::*;

use crate::errors::StoreError;
use crate::temporal::instant_le;
use crate::temporal::instant_lt;
use crate::temporal::instant_text;
use crate::temporal::instant_valid;
use crate::temporal::time_text;
use crate::temporal::total_minutes;
use crate::temporal::duration_minutes;
use crate::temporal::Instant;

verus! {

/// A time-boxed appointment: display text plus its start and end instants.
#[derive(Debug)]
pub struct Appointment {
    pub description: String,
    pub start: Instant,
    pub end: Instant,
}

/// The mathematical value of an appointment.
pub struct ApptModel {
    pub description: Seq<char>,
    pub start: Instant,
    pub end: Instant,
}

impl View for Appointment {
    type V = ApptModel;

    open spec fn view(&self) -> ApptModel {
        ApptModel { description: self.description@, start: self.start, end: self.end }
    }
}

/// A well-formed appointment: both instants are real calendar points, the end
/// does not fall before the start, and the display text is non-empty.
pub open spec fn appt_model_valid(a: ApptModel) -> bool {
    &&& instant_valid(a.start)
    &&& instant_valid(a.end)
    &&& instant_le(a.start, a.end)
    &&& a.description.len() > 0
}

/// Strict lexicographic order on text, by codepoint.
pub open spec fn lex_lt(a: Seq<char>, b: Seq<char>) -> bool
    decreases a.len(),
{
    if b.len() == 0 {
        false
    } else if a.len() == 0 {
        true
    } else if a[0] != b[0] {
        (a[0] as int) < (b[0] as int)
    } else {
        lex_lt(a.drop_first(), b.drop_first())
    }
}

/// Texts that order neither way are equal.
proof fn lemma_lex_lt_connected(a: Seq<char>, b: Seq<char>)
    ensures
        !lex_lt(a, b) && !lex_lt(b, a) ==> a == b,
    decreases a.len(),
{
    if a.len() == 0 || b.len() == 0 {
        if a.len() == 0 && b.len() == 0 {
            assert(a =~= b);
        }
    } else if a[0] == b[0] {
        lemma_lex_lt_connected(a.drop_first(), b.drop_first());
        if !lex_lt(a, b) && !lex_lt(b, a) {
            assert(a.drop_first() == b.drop_first());
            assert(a.len() == b.len()) by {
                assert(a.drop_first().len() == b.drop_first().len());
            }
            assert forall|i: int| 0 <= i < a.len() implies a[i] == b[i] by {
                if i > 0 {
                    assert(a[i] == a.drop_first()[i - 1]);
                    assert(b[i] == b.drop_first()[i - 1]);
                }
            }
            assert(a =~= b);
        }
    }
}

/// Text order is asymmetric.
proof fn lemma_lex_lt_asymmetric(a: Seq<char>, b: Seq<char>)
    ensures
        lex_lt(a, b) ==> !lex_lt(b, a),
    decreases a.len(),
{
    if a.len() != 0 && b.len() != 0 && a[0] == b[0] {
        lemma_lex_lt_asymmetric(a.drop_first(), b.drop_first());
    }
}

/// Text order is transitive.
proof fn lemma_lex_lt_transitive(a: Seq<char>, b: Seq<char>, c: Seq<char>)
    ensures
        lex_lt(a, b) && lex_lt(b, c) ==> lex_lt(a, c),
    decreases a.len(),
{
    if a.len() != 0 && b.len() != 0 && c.len() != 0 {
        lemma_lex_lt_transitive(a.drop_first(), b.drop_first(), c.drop_first());
    }
}

/// The canonical strict order on appointments: `start` ascending, then `end`
/// ascending, then `description` in codepoint order.
pub open spec fn appt_lt(a: ApptModel, b: ApptModel) -> bool {
    ||| instant_lt(a.start, b.start)
    ||| (a.start == b.start && instant_lt(a.end, b.end))
    ||| (a.start == b.start && a.end == b.end && lex_lt(a.description, b.description))
}

/// The canonical non-strict order on appointments.
pub open spec fn appt_le(a: ApptModel, b: ApptModel) -> bool {
    appt_lt(a, b) || a == b
}

/// Law: the canonical order is a total order on appointment values — it is
/// reflexive, total, antisymmetric and transitive, so the three-level
/// tie-break gives every collection of appointments one deterministic
/// presentation order.
pub proof fn lemma_canonical_order_total(a: ApptModel, b: ApptModel, c: ApptModel)
    ensures
        appt_le(a, a),
        !appt_lt(a, a),
        appt_le(a, b) || appt_le(b, a),
        appt_le(a, b) && appt_le(b, a) ==> a == b,
        appt_le(a, b) && appt_le(b, c) ==> appt_le(a, c),
{
    lemma_lex_lt_asymmetric(a.description, a.description);
    lemma_lex_lt_connected(a.description, b.description);
    lemma_lex_lt_asymmetric(a.description, b.description);
    lemma_lex_lt_asymmetric(b.description, c.description);
    lemma_lex_lt_asymmetric(a.description, c.description);
    lemma_lex_lt_transitive(a.description, b.description, c.description);
}

/// Compares two texts for equality, character by character.
pub(crate) fn text_eq(a: &str, b: &str) -> (r: bool)
    ensures
        r == (a@ == b@),
{
    let alen = a.unicode_len();
    let blen = b.unicode_len();
    if alen != blen {
        return false;
    }
    let mut i: usize = 0;
    while i < alen
        invariant
            0 <= i <= alen,
            alen == a@.len(),
            alen == b@.len(),
            forall|j: int| 0 <= j < i ==> a@[j] == b@[j],
        decreases alen - i,
    {
        if a.get_char(i) != b.get_char(i) {
            return false;
        }
        i = i + 1;
    }
    proof {
        assert(a@ =~= b@);
    }
    true
}

/// Compares two texts in codepoint order.
fn text_lt(a: &str, b: &str) -> (r: bool)
    ensures
        r == lex_lt(a@, b@),
{
    let alen = a.unicode_len();
    let blen = b.unicode_len();
    let mut i: usize = 0;
    proof {
        assert(a@.skip(0) =~= a@);
        assert(b@.skip(0) =~= b@);
    }
    loop
        invariant
            0 <= i <= alen,
            0 <= i <= blen,
            alen == a@.len(),
            blen == b@.len(),
            lex_lt(a@, b@) == lex_lt(a@.skip(i as int), b@.skip(i as int)),
            lex_lt(b@, a@) == lex_lt(b@.skip(i as int), a@.skip(i as int)),
        decreases alen - i,
    {
        if i >= blen {
            return false;
        }
        if i >= alen {
            return true;
        }
        let ca = a.get_char(i);
        let cb = b.get_char(i);
        if ca as u32 != cb as u32 {
            return (ca as u32) < (cb as u32);
        }
        proof {
            assert(a@.skip(i as int).drop_first() =~= a@.skip(i + 1));
            assert(b@.skip(i as int).drop_first() =~= b@.skip(i + 1));
        }
        i = i + 1;
    }
}

/// Whether one appointment comes strictly before another in the canonical
/// order.
pub fn appt_before(a: &Appointment, b: &Appointment) -> (r: bool)
    ensures
        r == appt_lt(a@, b@),
{
    if a.start.before(&b.start) {
        true
    } else if b.start.before(&a.start) {
        false
    } else if a.end.before(&b.end) {
        true
    } else if b.end.before(&a.end) {
        false
    } else {
        text_lt(a.description.as_str(), b.description.as_str())
    }
}

/// Whether an appointment is well-formed: valid instants, end not before
/// start, non-empty description.
pub fn appt_valid_check(a: &Appointment) -> (r: bool)
    ensures
        r == appt_model_valid(a@),
{
    crate::temporal::instant_valid_check(&a.start) && crate::temporal::instant_valid_check(&a.end)
        && !a.end.before(&a.start) && !a.description.as_str().is_empty()
}

impl Appointment {
    /// Builds an appointment from already validated parts.
    pub fn new(description: String, start: Instant, end: Instant) -> (r: Appointment)
        requires
            instant_valid(start),
            instant_valid(end),
            instant_le(start, end),
            description@.len() > 0,
        ensures
            r@ == (ApptModel { description: description@, start, end }),
            appt_model_valid(r@),
    {
        Appointment { description, start, end }
    }

    /// An identical copy of the appointment.
    pub fn duplicate(&self) -> (r: Appointment)
        ensures
            r@ == self@,
    {
        Appointment { description: self.description.clone(), start: self.start, end: self.end }
    }

    /// The appointment's length in whole minutes.
    pub fn duration(&self) -> (r: u64)
        requires
            appt_model_valid(self@),
        ensures
            r == total_minutes(self.end) - total_minutes(self.start),
    {
        duration_minutes(self.start, self.end)
    }

    /// The start instant rendered as `mm/dd/yyyy hh:mm`.
    pub fn start_display(&self) -> (r: String)
        requires
            appt_model_valid(self@),
        ensures
            r@ == instant_text(self.start),
    {
        self.start.display()
    }

    /// The end instant for listing: a bare `hh:mm` when the appointment ends
    /// on the day it starts, the full `mm/dd/yyyy hh:mm` otherwise.
    pub fn end_display(&self) -> (r: String)
        requires
            appt_model_valid(self@),
        ensures
            r@ == if self.start.date == self.end.date {
                time_text(self.end.time)
            } else {
                instant_text(self.end)
            },
    {
        if self.start.date == self.end.date {
            self.end.time.display()
        } else {
            self.end.display()
        }
    }
}

/// One owner's slot in the store.
#[derive(Debug)]
pub struct OwnerEntry {
    pub owner: String,
    pub appts: Vec<Appointment>,
}

/// The mathematical value of an owner's slot.
pub struct OwnerModel {
    pub name: Seq<char>,
    pub appts: Seq<ApptModel>,
}

/// The appointment values held by a sequence of appointments.
pub open spec fn models_of(s: Seq<Appointment>) -> Seq<ApptModel> {
    s.map_values(|a: Appointment| a@)
}

impl View for OwnerEntry {
    type V = OwnerModel;

    open spec fn view(&self) -> OwnerModel {
        OwnerModel { name: self.owner@, appts: models_of(self.appts@) }
    }
}

/// The owner slot values held by a sequence of entries.
pub open spec fn owner_models_of(s: Seq<OwnerEntry>) -> Seq<OwnerModel> {
    s.map_values(|e: OwnerEntry| e@)
}

/// The sequence is in canonical order.
pub open spec fn appts_sorted(s: Seq<ApptModel>) -> bool {
    forall|i: int, j: int| 0 <= i < j < s.len() ==> appt_le(s[i], s[j])
}

/// A well-formed owner slot: a non-empty name filing a non-empty, canonically
/// ordered sequence of well-formed appointments.
pub open spec fn owner_model_wf(e: OwnerModel) -> bool {
    &&& e.name.len() > 0
    &&& e.appts.len() > 0
    &&& appts_sorted(e.appts)
    &&& forall|i: int| 0 <= i < e.appts.len() ==> appt_model_valid(#[trigger] e.appts[i])
}

/// A well-formed store: every slot well-formed, and no owner name repeated.
pub open spec fn store_model_wf(v: Seq<OwnerModel>) -> bool {
    &&& forall|i: int| 0 <= i < v.len() ==> owner_model_wf(#[trigger] v[i])
    &&& forall|i: int, j: int| 0 <= i < j < v.len() ==> v[i].name != v[j].name
}

/// Some slot files appointments under the given name.
pub open spec fn has_owner(v: Seq<OwnerModel>, name: Seq<char>) -> bool {
    exists|i: int| 0 <= i < v.len() && v[i].name == name
}

/// The position of the slot filed under the given name.
pub open spec fn owner_index(v: Seq<OwnerModel>, name: Seq<char>) -> int {
    choose|i: int| 0 <= i < v.len() && v[i].name == name
}

/// The appointments filed under the given name.
pub open spec fn appts_of(v: Seq<OwnerModel>, name: Seq<char>) -> Seq<ApptModel> {
    v[owner_index(v, name)].appts
}

/// Where an appointment lands in a canonically ordered sequence: before the
/// first element it is strictly less than, after every element it ties with.
pub open spec fn insert_canonical(s: Seq<ApptModel>, a: ApptModel) -> Seq<ApptModel>
    decreases s.len(),
{
    if s.len() == 0 {
        seq![a]
    } else if appt_lt(a, s[0]) {
        seq![a] + s
    } else {
        seq![s[0]] + insert_canonical(s.drop_first(), a)
    }
}

/// What adding an appointment does to the whole store: it lands in the
/// owner's slot in canonical position, and a new slot opens at the end for a
/// first-time owner.
pub open spec fn spec_add(v: Seq<OwnerModel>, name: Seq<char>, a: ApptModel) -> Seq<OwnerModel> {
    if has_owner(v, name) {
        v.update(
            owner_index(v, name),
            (OwnerModel { name: name, appts: insert_canonical(v[owner_index(v, name)].appts, a) }),
        )
    } else {
        v.push(OwnerModel { name: name, appts: seq![a] })
    }
}

/// In a store without repeated names, any slot holding the name is the slot
/// the name selects.
proof fn lemma_owner_index_unique(v: Seq<OwnerModel>, name: Seq<char>, i: int)
    requires
        store_model_wf(v),
        0 <= i < v.len(),
        v[i].name == name,
    ensures
        has_owner(v, name),
        owner_index(v, name) == i,
{
    assert(has_owner(v, name));
    let j = owner_index(v, name);
    assert(0 <= j < v.len() && v[j].name == name);
    if i < j {
        assert(v[i].name != v[j].name);
    } else if j < i {
        assert(v[j].name != v[i].name);
    }
}

/// Inserting at the first position whose element exceeds the new one realizes
/// the canonical insertion.
proof fn lemma_insert_canonical_at(s: Seq<ApptModel>, a: ApptModel, p: int)
    requires
        0 <= p <= s.len(),
        forall|k: int| 0 <= k < p ==> !appt_lt(a, #[trigger] s[k]),
        p < s.len() ==> appt_lt(a, s[p]),
    ensures
        insert_canonical(s, a) == s.insert(p, a),
    decreases s.len(),
{
    if s.len() == 0 {
        assert(insert_canonical(s, a) =~= s.insert(0, a));
    } else if appt_lt(a, s[0]) {
        assert(p == 0) by {
            if p > 0 {
                assert(!appt_lt(a, s[0]));
            }
        }
        assert(seq![a] + s =~= s.insert(0, a));
    } else {
        let t = s.drop_first();
        assert(p >= 1);
        assert forall|k: int| 0 <= k < p - 1 implies !appt_lt(a, #[trigger] t[k]) by {
            assert(t[k] == s[k + 1]);
        }
        assert(p - 1 < t.len() ==> appt_lt(a, t[p - 1])) by {
            if p < s.len() {
                assert(t[p - 1] == s[p]);
            }
        }
        lemma_insert_canonical_at(t, a, p - 1);
        assert(seq![s[0]] + t.insert(p - 1, a) =~= s.insert(p, a));
    }
}

/// Canonical insertion into an ordered sequence keeps it ordered.
proof fn lemma_sorted_insert(s: Seq<ApptModel>, a: ApptModel, p: int)
    requires
        appts_sorted(s),
        0 <= p <= s.len(),
        forall|k: int| 0 <= k < p ==> !appt_lt(a, #[trigger] s[k]),
        p < s.len() ==> appt_lt(a, s[p]),
    ensures
        appts_sorted(s.insert(p, a)),
{
    let t = s.insert(p, a);
    assert forall|i: int, j: int| 0 <= i < j < t.len() implies appt_le(t[i], t[j]) by {
        if j < p {
            assert(t[i] == s[i] && t[j] == s[j]);
        } else if i < p && j == p {
            assert(t[i] == s[i] && t[j] == a);
            lemma_canonical_order_total(s[i], a, a);
        } else if i < p && j > p {
            assert(t[i] == s[i] && t[j] == s[j - 1]);
        } else if i == p {
            assert(t[i] == a && t[j] == s[j - 1]);
            assert(appt_lt(a, s[p as int]));
            lemma_canonical_order_total(a, s[p as int], s[j - 1]);
        } else {
            assert(t[i] == s[i - 1] && t[j] == s[j - 1]);
        }
    }
}

/// Neighbours in canonical order chain out to any span.
proof fn lemma_le_span(s: Seq<ApptModel>, i: int, j: int)
    requires
        forall|k: int| 0 <= k < s.len() - 1 ==> appt_le(#[trigger] s[k], s[k + 1]),
        0 <= i <= j < s.len(),
    ensures
        appt_le(s[i], s[j]),
    decreases j - i,
{
    if i == j {
        lemma_canonical_order_total(s[i], s[i], s[i]);
    } else {
        lemma_le_span(s, i, j - 1);
        lemma_canonical_order_total(s[i], s[j - 1], s[j]);
    }
}

/// A sequence whose neighbours are in canonical order is sorted.
pub(crate) proof fn lemma_adjacent_sorted(s: Seq<ApptModel>)
    requires
        forall|k: int| 0 <= k < s.len() - 1 ==> appt_le(#[trigger] s[k], s[k + 1]),
    ensures
        appts_sorted(s),
{
    assert forall|i: int, j: int| 0 <= i < j < s.len() implies appt_le(s[i], s[j]) by {
        lemma_le_span(s, i, j);
    }
}

/// Removing one element of an ordered sequence keeps it ordered.
proof fn lemma_sorted_remove(s: Seq<ApptModel>, k: int)
    requires
        appts_sorted(s),
        0 <= k < s.len(),
    ensures
        appts_sorted(s.remove(k)),
{
    let t = s.remove(k);
    assert forall|i: int, j: int| 0 <= i < j < t.len() implies appt_le(t[i], t[j]) by {
        if i < k {
            assert(t[i] == s[i]);
        } else {
            assert(t[i] == s[i + 1]);
        }
        if j < k {
            assert(t[j] == s[j]);
        } else {
            assert(t[j] == s[j + 1]);
        }
    }
}

/// The store: each owner's appointments, in canonical order.
#[derive(Debug)]
pub struct AppointmentStore {
    entries: Vec<OwnerEntry>,
}

impl View for AppointmentStore {
    type V = Seq<OwnerModel>;

    closed spec fn view(&self) -> Seq<OwnerModel> {
        owner_models_of(self.entries@)
    }
}

impl AppointmentStore {
    /// The store's invariant.
    pub open spec fn wf(&self) -> bool {
        store_model_wf(self@)
    }

    /// An empty store.
    pub fn new() -> (s: AppointmentStore)
        ensures
            s.wf(),
            s@ == Seq::<OwnerModel>::empty(),
    {
        let s = AppointmentStore { entries: Vec::new() };
        proof {
            assert(s@ =~= Seq::<OwnerModel>::empty());
        }
        s
    }

    /// Wraps already well-formed slots as a store.
    pub(crate) fn from_entries(entries: Vec<OwnerEntry>) -> (s: AppointmentStore)
        requires
            store_model_wf(owner_models_of(entries@)),
        ensures
            s.wf(),
            s@ == owner_models_of(entries@),
    {
        AppointmentStore { entries }
    }

    /// The store's slots, for whole-store traversal.
    pub(crate) fn entry_slots(&self) -> (r: &Vec<OwnerEntry>)
        ensures
            owner_models_of(r@) == self@,
    {
        &self.entries
    }

    /// How many owners have appointments filed.
    pub fn owner_count(&self) -> (r: usize)
        ensures
            r == self@.len(),
    {
        self.entries.len()
    }

    /// Whether no appointments are filed at all.
    pub fn is_empty(&self) -> (r: bool)
        ensures
            r == (self@.len() == 0),
    {
        self.entries.is_empty()
    }

    /// Finds the slot filed under the given owner name.
    fn find_owner(&self, owner: &str) -> (r: Option<usize>)
        ensures
            r is Some ==> 0 <= r->0 < self@.len() && self@[r->0 as int].name == owner@,
            r is None ==> !has_owner(self@, owner@),
    {
        let n = self.entries.len();
        let mut k: usize = 0;
        while k < n
            invariant
                0 <= k <= n,
                n == self.entries@.len(),
                forall|j: int| 0 <= j < k ==> self@[j].name != owner@,
            decreases n - k,
        {
            if text_eq(self.entries[k].owner.as_str(), owner) {
                return Some(k);
            }
            k = k + 1;
        }
        None
    }

    /// Finds where a new appointment lands in a canonically ordered sequence.
    fn insert_position(appts: &Vec<Appointment>, appt: &Appointment) -> (p: usize)
        ensures
            0 <= p <= appts@.len(),
            forall|k: int| 0 <= k < p ==> !appt_lt(appt@, #[trigger] models_of(appts@)[k]),
            p < appts@.len() ==> appt_lt(appt@, models_of(appts@)[p as int]),
    {
        let n = appts.len();
        let mut p: usize = 0;
        while p < n
            invariant
                0 <= p <= n,
                n == appts@.len(),
                forall|k: int| 0 <= k < p ==> !appt_lt(appt@, #[trigger] models_of(appts@)[k]),
            decreases n - p,
        {
            if appt_before(appt, &appts[p]) {
                return p;
            }
            p = p + 1;
        }
        p
    }

    /// Files an appointment under the owner, creating the owner's slot if
    /// absent and keeping the slot in canonical order.
    pub fn add(&mut self, owner: String, appt: Appointment)
        requires
            old(self).wf(),
            appt_model_valid(appt@),
            owner@.len() > 0,
        ensures
            final(self).wf(),
            final(self)@ == spec_add(old(self)@, owner@, appt@),
    {
        let found = self.find_owner(owner.as_str());
        match found {
            Some(i) => {
                let ghost v = old(self)@;
                let ghost s = v[i as int].appts;
                proof {
                    lemma_owner_index_unique(v, owner@, i as int);
                }
                let entry = &mut self.entries[i];
                let p = Self::insert_position(&entry.appts, &appt);
                let ghost before_appts = entry.appts@;
                entry.appts.insert(p, appt);
                proof {
                    assert(models_of(before_appts) == s);
                    lemma_insert_canonical_at(s, appt@, p as int);
                    lemma_sorted_insert(s, appt@, p as int);
                    assert(models_of(entry.appts@) =~= s.insert(p as int, appt@));
                    assert(self@ =~= spec_add(v, owner@, appt@));
                    assert forall|k: int| 0 <= k < self@.len() implies owner_model_wf(
                        #[trigger] self@[k],
                    ) by {
                        if k != i as int {
                            assert(self@[k] == v[k]);
                        }
                    }
                }
            },
            None => {
                let ghost v = old(self)@;
                let mut appts: Vec<Appointment> = Vec::new();
                appts.push(appt);
                let ghost single = appts@;
                self.entries.push(OwnerEntry { owner, appts });
                proof {
                    assert(models_of(single) =~= seq![appt@]);
                    assert(self@ =~= spec_add(v, owner@, appt@));
                    assert forall|k: int| 0 <= k < self@.len() implies owner_model_wf(
                        #[trigger] self@[k],
                    ) by {
                        if k < v.len() {
                            assert(self@[k] == v[k]);
                        }
                    }
                }
            },
        }
    }

    /// The owner's appointments, in canonical order.
    pub fn list(&self, owner: &str) -> (r: Result<&Vec<Appointment>, StoreError>)
        requires
            self.wf(),
        ensures
            r is Ok <==> has_owner(self@, owner@),
            r is Ok ==> models_of(r->Ok_0@) == appts_of(self@, owner@),
            r is Err ==> r->Err_0 == StoreError::NotFound,
    {
        match self.find_owner(owner) {
            Some(i) => {
                proof {
                    lemma_owner_index_unique(self@, owner@, i as int);
                }
                Ok(&self.entries[i].appts)
            },
            None => Err(StoreError::NotFound),
        }
    }

    /// Removes the owner and every appointment filed under the name.
    pub fn delete_all(&mut self, owner: &str) -> (r: Result<(), StoreError>)
        requires
            old(self).wf(),
        ensures
            final(self).wf(),
            r is Ok <==> has_owner(old(self)@, owner@),
            r is Err ==> r->Err_0 == StoreError::NotFound && final(self)@ == old(self)@,
            r is Ok ==> final(self)@ == old(self)@.remove(owner_index(old(self)@, owner@)),
            !has_owner(final(self)@, owner@),
    {
        let found = self.find_owner(owner);
        match found {
            Some(i) => {
                let ghost v = old(self)@;
                proof {
                    lemma_owner_index_unique(v, owner@, i as int);
                }
                self.entries.remove(i);
                proof {
                    assert(self@ =~= v.remove(i as int));
                    assert forall|k: int| 0 <= k < self@.len() implies self@[k].name != owner@ by {
                        if k < i as int {
                            assert(self@[k] == v[k]);
                        } else {
                            assert(self@[k] == v[k + 1]);
                        }
                    }
                }
                Ok(())
            },
            None => Err(StoreError::NotFound),
        }
    }

    /// Removes the appointment at the given 1-based position of the owner's
    /// canonical order; the owner's slot disappears with its last
    /// appointment.
    pub fn delete_one(&mut self, owner: &str, index: usize) -> (r: Result<(), StoreError>)
        requires
            old(self).wf(),
        ensures
            final(self).wf(),
            !has_owner(old(self)@, owner@) ==> r == Err::<(), StoreError>(StoreError::NotFound)
                && final(self)@ == old(self)@,
            has_owner(old(self)@, owner@) && !(1 <= index <= appts_of(old(self)@, owner@).len())
                ==> r == Err::<(), StoreError>(StoreError::IndexOutOfRange) && final(self)@ == old(
                self,
            )@,
            has_owner(old(self)@, owner@) && 1 <= index <= appts_of(old(self)@, owner@).len()
                ==> r == Ok::<(), StoreError>(()) && final(self)@ == (if appts_of(
                old(self)@,
                owner@,
            ).len() == 1 {
                old(self)@.remove(owner_index(old(self)@, owner@))
            } else {
                old(self)@.update(
                    owner_index(old(self)@, owner@),
                    (OwnerModel {
                        name: owner@,
                        appts: appts_of(old(self)@, owner@).remove(index - 1),
                    }),
                )
            }),
            has_owner(old(self)@, owner@) && appts_of(old(self)@, owner@).len() == 1 && index == 1
                ==> !has_owner(final(self)@, owner@),
    {
        let found = self.find_owner(owner);
        let i = match found {
            Some(i) => i,
            None => {
                return Err(StoreError::NotFound);
            },
        };
        let ghost v = old(self)@;
        proof {
            lemma_owner_index_unique(v, owner@, i as int);
        }
        let count = self.entries[i].appts.len();
        if index < 1 || index > count {
            return Err(StoreError::IndexOutOfRange);
        }
        if count == 1 {
            self.entries.remove(i);
            proof {
                assert(self@ =~= v.remove(i as int));
                assert forall|k: int| 0 <= k < self@.len() implies self@[k].name != owner@ by {
                    if k < i as int {
                        assert(self@[k] == v[k]);
                    } else {
                        assert(self@[k] == v[k + 1]);
                    }
                }
            }
        } else {
            let entry = &mut self.entries[i];
            let ghost s = v[i as int].appts;
            let _removed = entry.appts.remove(index - 1);
            proof {
                lemma_sorted_remove(s, index - 1);
                assert(models_of(entry.appts@) =~= s.remove(index - 1));
                assert(self@ =~= v.update(
                    i as int,
                    (OwnerModel { name: owner@, appts: s.remove(index - 1) }),
                ));
                assert forall|k: int| 0 <= k < self@.len() implies owner_model_wf(
                    #[trigger] self@[k],
                ) by {
                    if k != i as int {
                        assert(self@[k] == v[k]);
                    }
                }
            }
        }
        Ok(())
    }

    /// Every owner name with appointments filed, in slot order; the order is
    /// stable between mutations.
    pub fn owners(&self) -> (r: Vec<String>)
        ensures
            r@.len() == self@.len(),
            forall|i: int| 0 <= i < r@.len() ==> #[trigger] r@[i]@ == self@[i].name,
    {
        let n = self.entries.len();
        let mut out: Vec<String> = Vec::new();
        let mut k: usize = 0;
        while k < n
            invariant
                0 <= k <= n,
                n == self.entries@.len(),
                out@.len() == k,
                forall|i: int| 0 <= i < k ==> #[trigger] out@[i]@ == self@[i].name,
            decreases n - k,
        {
            out.push(self.entries[k].owner.clone());
            k = k + 1;
        }
        out
    }
}

} // verus!
