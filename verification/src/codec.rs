//! The persistence codec.
//!
//! The whole store is serialized to one text blob: an object mapping each
//! owner name to an array of appointment records, every record carrying
//! `description`, `start_date_time` and `end_date_time` in that fixed order,
//! with instants rendered ISO-like as `yyyy-mm-ddThh:mm`. Quotes and
//! backslashes inside text are escaped with a backslash. [`store_text`] is
//! the canonical rendering; [`encode`] produces exactly it, and [`decode`]
//! accepts exactly the canonical renderings of well-formed stores (plus the
//! empty blob, which stands for the empty store).

use vstd::prelude::*;

use crate::errors::PersistenceError;
use crate::store::appt_le;
use crate::store::appt_model_valid;
use crate::store::appts_sorted;
use crate::store::models_of;
use crate::store::owner_model_wf;
use crate::store::owner_models_of;
use crate::store::store_model_wf;
use crate::store::ApptModel;
use crate::store::Appointment;
use crate::store::AppointmentStore;
use crate::store::OwnerEntry;
use crate::store::OwnerModel;
use crate::temporal::digit_char;
use crate::temporal::digit_val;
use crate::temporal::four_digits;
use crate::temporal::instant_valid;
use crate::temporal::is_digit;
use crate::temporal::two_digits;
use crate::temporal::Date;
use crate::temporal::Instant;
use crate::temporal::Time;
use vstd::arithmetic::div_mod::lemma_div_denominator;
use vstd::arithmetic::div_mod::lemma_div_is_ordered;
use vstd::arithmetic::div_mod::lemma_fundamental_div_mod;
use vstd::arithmetic::div_mod::lemma_mod_division_less_than_divisor;

verus! {

/// Relies on `String::push`: appends exactly the given character.
#[verifier::external_body]
fn push_char(s: &mut String, c: char)
    ensures
        final(s)@ == old(s)@.push(c),
{
    s.push(c);
}

/// The opening of a record, through the quote that opens the description.
pub open spec fn lit_open() -> Seq<char> {
    seq!['{', '"', 'd', 'e', 's', 'c', 'r', 'i', 'p', 't', 'i', 'o', 'n', '"', ':', '"']
}

/// Between the description's closing quote and the start instant.
pub open spec fn lit_sep1() -> Seq<char> {
    seq![
        ',',
        '"',
        's',
        't',
        'a',
        'r',
        't',
        '_',
        'd',
        'a',
        't',
        'e',
        '_',
        't',
        'i',
        'm',
        'e',
        '"',
        ':',
        '"',
    ]
}

/// Between the start instant and the end instant.
pub open spec fn lit_sep2() -> Seq<char> {
    seq!['"', ',', '"', 'e', 'n', 'd', '_', 'd', 'a', 't', 'e', '_', 't', 'i', 'm', 'e', '"', ':', '"']
}

/// The close of a record.
pub open spec fn lit_close() -> Seq<char> {
    seq!['"', '}']
}

/// An instant rendered ISO-like: `yyyy-mm-ddThh:mm`, sixteen characters.
pub open spec fn iso_text(i: Instant) -> Seq<char> {
    four_digits(i.date.year as int) + seq!['-'] + two_digits(i.date.month as int) + seq!['-']
        + two_digits(i.date.day as int) + seq!['T'] + two_digits(i.time.hour as int) + seq![':']
        + two_digits(i.time.minute as int)
}

/// Text with a backslash written before every quote or backslash.
pub open spec fn escape_text(s: Seq<char>) -> Seq<char>
    decreases s.len(),
{
    if s.len() == 0 {
        Seq::empty()
    } else {
        (if s[0] == '"' || s[0] == '\\' {
            seq!['\\', s[0]]
        } else {
            seq![s[0]]
        }) + escape_text(s.drop_first())
    }
}

/// One appointment record.
pub open spec fn record_text(a: ApptModel) -> Seq<char> {
    lit_open() + escape_text(a.description) + seq!['"'] + lit_sep1() + iso_text(a.start)
        + lit_sep2() + iso_text(a.end) + lit_close()
}

/// Records joined by commas.
pub open spec fn records_text(s: Seq<ApptModel>) -> Seq<char>
    decreases s.len(),
{
    if s.len() == 0 {
        Seq::empty()
    } else if s.len() == 1 {
        record_text(s[0])
    } else {
        record_text(s[0]) + seq![','] + records_text(s.drop_first())
    }
}

/// One owner's slot: the quoted name, then the array of records.
pub open spec fn entry_text(e: OwnerModel) -> Seq<char> {
    seq!['"'] + escape_text(e.name) + seq!['"', ':', '['] + records_text(e.appts) + seq![']']
}

/// Slots joined by commas.
pub open spec fn entries_text(v: Seq<OwnerModel>) -> Seq<char>
    decreases v.len(),
{
    if v.len() == 0 {
        Seq::empty()
    } else if v.len() == 1 {
        entry_text(v[0])
    } else {
        entry_text(v[0]) + seq![','] + entries_text(v.drop_first())
    }
}

/// The canonical text of a whole store.
pub open spec fn store_text(v: Seq<OwnerModel>) -> Seq<char> {
    seq!['{'] + entries_text(v) + seq!['}']
}

/// Escaping distributes over concatenation.
proof fn lemma_escape_concat(a: Seq<char>, b: Seq<char>)
    ensures
        escape_text(a + b) == escape_text(a) + escape_text(b),
    decreases a.len(),
{
    if a.len() == 0 {
        assert(a + b =~= b);
        assert(escape_text(a) + escape_text(b) =~= escape_text(b));
    } else {
        lemma_escape_concat(a.drop_first(), b);
        assert((a + b).drop_first() =~= a.drop_first() + b);
        assert((a + b)[0] == a[0]);
        assert(escape_text(a + b) =~= escape_text(a) + escape_text(b));
    }
}

/// Escaping one more character appends its escaped form.
proof fn lemma_escape_snoc(s: Seq<char>, i: int)
    requires
        0 <= i < s.len(),
    ensures
        escape_text(s.take(i + 1)) == escape_text(s.take(i)) + (if s[i] == '"' || s[i] == '\\' {
            seq!['\\', s[i]]
        } else {
            seq![s[i]]
        }),
{
    assert(s.take(i + 1) =~= s.take(i) + seq![s[i]]);
    lemma_escape_concat(s.take(i), seq![s[i]]);
    let unit = seq![s[i]];
    assert(unit.drop_first() =~= Seq::<char>::empty());
    assert(escape_text(Seq::<char>::empty()) == Seq::<char>::empty());
    assert(escape_text(unit) =~= if s[i] == '"' || s[i] == '\\' {
        seq!['\\', s[i]]
    } else {
        seq![s[i]]
    });
}

/// Appends the escaped form of the text.
fn append_escaped(out: &mut String, text: &str)
    ensures
        final(out)@ == old(out)@ + escape_text(text@),
{
    let n = text.unicode_len();
    let mut i: usize = 0;
    proof {
        assert(text@.take(0) =~= Seq::<char>::empty());
        assert(out@ =~= out@ + escape_text(text@.take(0)));
    }
    while i < n
        invariant
            0 <= i <= n,
            n == text@.len(),
            out@ == old(out)@ + escape_text(text@.take(i as int)),
        decreases n - i,
    {
        let c = text.get_char(i);
        if c == '"' || c == '\\' {
            push_char(out, '\\');
            push_char(out, c);
        } else {
            push_char(out, c);
        }
        proof {
            lemma_escape_snoc(text@, i as int);
            assert(out@ =~= old(out)@ + escape_text(text@.take(i + 1)));
        }
        i = i + 1;
    }
    proof {
        assert(text@.take(n as int) =~= text@);
    }
}

/// Appends an instant in the ISO-like form.
fn append_iso(out: &mut String, i: &Instant)
    requires
        instant_valid(*i),
    ensures
        final(out)@ == old(out)@ + iso_text(*i),
{
    let ghost at_start = out@;
    crate::temporal::push_four_digits(out, i.date.year);
    push_char(out, '-');
    crate::temporal::push_two_digits(out, i.date.month);
    push_char(out, '-');
    crate::temporal::push_two_digits(out, i.date.day);
    push_char(out, 'T');
    crate::temporal::push_two_digits(out, i.time.hour);
    push_char(out, ':');
    crate::temporal::push_two_digits(out, i.time.minute);
    proof {
        assert(out@ =~= at_start + iso_text(*i));
    }
}

/// Appends one appointment record.
fn append_record(out: &mut String, a: &Appointment)
    requires
        appt_model_valid(a@),
    ensures
        final(out)@ == old(out)@ + record_text(a@),
{
    let ghost at_start = out@;
    out.append("{\"description\":\"");
    proof {
        reveal_strlit("{\"description\":\"");
        assert(("{\"description\":\"")@ =~= lit_open());
    }
    append_escaped(out, a.description.as_str());
    push_char(out, '"');
    out.append(",\"start_date_time\":\"");
    proof {
        reveal_strlit(",\"start_date_time\":\"");
        assert((",\"start_date_time\":\"")@ =~= lit_sep1());
    }
    append_iso(out, &a.start);
    out.append("\",\"end_date_time\":\"");
    proof {
        reveal_strlit("\",\"end_date_time\":\"");
        assert(("\",\"end_date_time\":\"")@ =~= lit_sep2());
    }
    append_iso(out, &a.end);
    out.append("\"}");
    proof {
        reveal_strlit("\"}");
        assert(("\"}")@ =~= lit_close());
        assert(out@ =~= at_start + record_text(a@));
    }
}

/// Joining one more record appends a comma first, except at the front.
#[verifier::rlimit(50)]
proof fn lemma_records_text_snoc(s: Seq<ApptModel>, k: int)
    requires
        0 <= k < s.len(),
    ensures
        records_text(s.take(k + 1)) == if k == 0 {
            record_text(s[0])
        } else {
            records_text(s.take(k)) + seq![','] + record_text(s[k])
        },
    decreases k,
{
    if k == 0 {
        assert(s.take(1) =~= seq![s[0]]);
        assert(records_text(seq![s[0]]) == record_text(s[0]));
    } else if k == 1 {
        assert(s.take(2).drop_first() =~= seq![s[1]]);
        assert(s.take(1) =~= seq![s[0]]);
        assert(s.take(2)[0] == s[0]);
        assert(records_text(seq![s[1]]) == record_text(s[1]));
        assert(records_text(seq![s[0]]) == record_text(s[0]));
        assert(records_text(s.take(2)) =~= records_text(s.take(1)) + seq![','] + record_text(s[1]));
    } else {
        lemma_records_text_snoc(s.drop_first(), k - 1);
        assert(s.take(k + 1).drop_first() =~= s.drop_first().take(k));
        assert(s.take(k).drop_first() =~= s.drop_first().take(k - 1));
        assert(s.take(k + 1)[0] == s[0]);
        assert(s.take(k)[0] == s[0]);
        assert(s.drop_first()[k - 1] == s[k]);
        assert(records_text(s.take(k + 1)) =~= records_text(s.take(k)) + seq![','] + record_text(
            s[k],
        ));
    }
}

/// Joining one more slot appends a comma first, except at the front.
#[verifier::rlimit(50)]
proof fn lemma_entries_text_snoc(v: Seq<OwnerModel>, k: int)
    requires
        0 <= k < v.len(),
    ensures
        entries_text(v.take(k + 1)) == if k == 0 {
            entry_text(v[0])
        } else {
            entries_text(v.take(k)) + seq![','] + entry_text(v[k])
        },
    decreases k,
{
    if k == 0 {
        assert(v.take(1) =~= seq![v[0]]);
        assert(entries_text(seq![v[0]]) == entry_text(v[0]));
    } else if k == 1 {
        assert(v.take(2).drop_first() =~= seq![v[1]]);
        assert(v.take(1) =~= seq![v[0]]);
        assert(v.take(2)[0] == v[0]);
        assert(entries_text(seq![v[1]]) == entry_text(v[1]));
        assert(entries_text(seq![v[0]]) == entry_text(v[0]));
        assert(entries_text(v.take(2)) =~= entries_text(v.take(1)) + seq![','] + entry_text(v[1]));
    } else {
        lemma_entries_text_snoc(v.drop_first(), k - 1);
        assert(v.take(k + 1).drop_first() =~= v.drop_first().take(k));
        assert(v.take(k).drop_first() =~= v.drop_first().take(k - 1));
        assert(v.take(k + 1)[0] == v[0]);
        assert(v.take(k)[0] == v[0]);
        assert(v.drop_first()[k - 1] == v[k]);
        assert(entries_text(v.take(k + 1)) =~= entries_text(v.take(k)) + seq![','] + entry_text(
            v[k],
        ));
    }
}

/// Appends one owner's slot.
fn append_entry(out: &mut String, e: &OwnerEntry)
    requires
        owner_model_wf(e@),
    ensures
        final(out)@ == old(out)@ + entry_text(e@),
{
    let ghost at_start = out@;
    push_char(out, '"');
    append_escaped(out, e.owner.as_str());
    push_char(out, '"');
    push_char(out, ':');
    push_char(out, '[');
    let n = e.appts.len();
    let mut k: usize = 0;
    proof {
        assert(e@.appts.take(0) =~= Seq::<ApptModel>::empty());
    }
    while k < n
        invariant
            0 <= k <= n,
            n == e.appts@.len(),
            owner_model_wf(e@),
            e@.appts.len() == n,
            out@ == at_start + seq!['"'] + escape_text(e@.name) + seq!['"', ':', '[']
                + records_text(e@.appts.take(k as int)),
        decreases n - k,
    {
        if k > 0 {
            push_char(out, ',');
        }
        proof {
            assert(appt_model_valid(e@.appts[k as int]));
            assert(e.appts@[k as int]@ == e@.appts[k as int]);
        }
        append_record(out, &e.appts[k]);
        proof {
            lemma_records_text_snoc(e@.appts, k as int);
            assert(out@ =~= at_start + seq!['"'] + escape_text(e@.name) + seq!['"', ':', '[']
                + records_text(e@.appts.take(k + 1)));
        }
        k = k + 1;
    }
    push_char(out, ']');
    proof {
        assert(e@.appts.take(n as int) =~= e@.appts);
        assert(out@ =~= at_start + entry_text(e@));
    }
}

/// Serializes the whole store to its canonical text.
pub fn encode(store: &AppointmentStore) -> (r: String)
    requires
        store.wf(),
    ensures
        r@ == store_text(store@),
{
    let entries = store.entry_slots();
    let mut out = String::new();
    push_char(&mut out, '{');
    let n = entries.len();
    let mut k: usize = 0;
    proof {
        assert(store@.take(0) =~= Seq::<OwnerModel>::empty());
        assert(out@ =~= seq!['{'] + entries_text(store@.take(0)));
    }
    while k < n
        invariant
            0 <= k <= n,
            n == entries@.len(),
            owner_models_of(entries@) == store@,
            store.wf(),
            out@ == seq!['{'] + entries_text(store@.take(k as int)),
        decreases n - k,
    {
        if k > 0 {
            push_char(&mut out, ',');
        }
        proof {
            assert(entries@[k as int]@ == store@[k as int]);
            assert(owner_model_wf(store@[k as int]));
        }
        append_entry(&mut out, &entries[k]);
        proof {
            lemma_entries_text_snoc(store@, k as int);
            assert(out@ =~= seq!['{'] + entries_text(store@.take(k + 1)));
        }
        k = k + 1;
    }
    push_char(&mut out, '}');
    proof {
        assert(store@.take(n as int) =~= store@);
        assert(out@ =~= store_text(store@));
    }
    out
}

/// The text carries `t` starting at position `pos`.
pub open spec fn prefix_at(s: Seq<char>, pos: int, t: Seq<char>) -> bool {
    0 <= pos && pos + t.len() <= s.len() && s.subrange(pos, pos + t.len()) == t
}

/// Scans quoted-string content from `pos` up to and including the closing
/// quote, undoing the escapes; the position follows the closing quote.
pub open spec fn scan_content(s: Seq<char>, pos: int) -> Option<(Seq<char>, int)>
    decreases s.len() - pos,
{
    if pos < 0 || pos >= s.len() {
        None
    } else if s[pos] == '"' {
        Some((Seq::empty(), pos + 1))
    } else if s[pos] == '\\' {
        if pos + 1 < s.len() && (s[pos + 1] == '"' || s[pos + 1] == '\\') {
            match scan_content(s, pos + 2) {
                None => None,
                Some((c, end)) => Some((seq![s[pos + 1]] + c, end)),
            }
        } else {
            None
        }
    } else {
        match scan_content(s, pos + 1) {
            None => None,
            Some((c, end)) => Some((seq![s[pos]] + c, end)),
        }
    }
}

/// Sixteen characters at `pos` have the `yyyy-mm-ddThh:mm` shape.
pub open spec fn iso_shape_at(s: Seq<char>, pos: int) -> bool {
    &&& 0 <= pos
    &&& pos + 16 <= s.len()
    &&& is_digit(s[pos]) && is_digit(s[pos + 1]) && is_digit(s[pos + 2]) && is_digit(s[pos + 3])
    &&& s[pos + 4] == '-'
    &&& is_digit(s[pos + 5]) && is_digit(s[pos + 6])
    &&& s[pos + 7] == '-'
    &&& is_digit(s[pos + 8]) && is_digit(s[pos + 9])
    &&& s[pos + 10] == 'T'
    &&& is_digit(s[pos + 11]) && is_digit(s[pos + 12])
    &&& s[pos + 13] == ':'
    &&& is_digit(s[pos + 14]) && is_digit(s[pos + 15])
}

/// The instant named by sixteen `yyyy-mm-ddThh:mm` characters at `pos`.
pub open spec fn iso_value_at(s: Seq<char>, pos: int) -> Instant {
    Instant {
        date: Date {
            year: (digit_val(s[pos]) * 1000 + digit_val(s[pos + 1]) * 100 + digit_val(s[pos + 2])
                * 10 + digit_val(s[pos + 3])) as u32,
            month: (digit_val(s[pos + 5]) * 10 + digit_val(s[pos + 6])) as u32,
            day: (digit_val(s[pos + 8]) * 10 + digit_val(s[pos + 9])) as u32,
        },
        time: Time {
            hour: (digit_val(s[pos + 11]) * 10 + digit_val(s[pos + 12])) as u32,
            minute: (digit_val(s[pos + 14]) * 10 + digit_val(s[pos + 15])) as u32,
        },
    }
}

/// Scans one appointment record at `pos`.
pub open spec fn scan_record(s: Seq<char>, pos: int) -> Option<(ApptModel, int)> {
    if !prefix_at(s, pos, lit_open()) {
        None
    } else {
        match scan_content(s, pos + 16) {
            None => None,
            Some((desc, p1)) => {
                if !prefix_at(s, p1, lit_sep1()) {
                    None
                } else if !iso_shape_at(s, p1 + 20) {
                    None
                } else if !prefix_at(s, p1 + 36, lit_sep2()) {
                    None
                } else if !iso_shape_at(s, p1 + 55) {
                    None
                } else if !prefix_at(s, p1 + 71, lit_close()) {
                    None
                } else {
                    Some(
                        (
                            ApptModel {
                                description: desc,
                                start: iso_value_at(s, p1 + 20),
                                end: iso_value_at(s, p1 + 55),
                            },
                            p1 + 73,
                        ),
                    )
                }
            },
        }
    }
}

/// Scans records separated by commas, up to and including the closing `]`.
pub open spec fn scan_records(s: Seq<char>, pos: int) -> Option<(Seq<ApptModel>, int)>
    decreases s.len() - pos,
{
    match scan_record(s, pos) {
        None => None,
        Some((a, n)) => {
            if n <= pos || n >= s.len() {
                None
            } else if s[n] == ',' {
                match scan_records(s, n + 1) {
                    None => None,
                    Some((rest, end)) => Some((seq![a] + rest, end)),
                }
            } else if s[n] == ']' {
                Some((seq![a], n + 1))
            } else {
                None
            }
        },
    }
}

/// Scans one owner's slot at `pos`: the quoted name, a colon, and the
/// bracketed records.
pub open spec fn scan_entry(s: Seq<char>, pos: int) -> Option<(OwnerModel, int)> {
    if !(0 <= pos && pos < s.len() && s[pos] == '"') {
        None
    } else {
        match scan_content(s, pos + 1) {
            None => None,
            Some((name, p1)) => {
                if !(0 <= p1 && p1 + 2 <= s.len() && s[p1] == ':' && s[p1 + 1] == '[') {
                    None
                } else {
                    match scan_records(s, p1 + 2) {
                        None => None,
                        Some((appts, end)) => Some((OwnerModel { name: name, appts: appts }, end)),
                    }
                }
            },
        }
    }
}

/// Scans slots separated by commas, up to and including the closing `}`.
pub open spec fn scan_entries(s: Seq<char>, pos: int) -> Option<(Seq<OwnerModel>, int)>
    decreases s.len() - pos,
{
    match scan_entry(s, pos) {
        None => None,
        Some((e, n)) => {
            if n <= pos || n >= s.len() {
                None
            } else if s[n] == ',' {
                match scan_entries(s, n + 1) {
                    None => None,
                    Some((rest, end)) => Some((seq![e] + rest, end)),
                }
            } else if s[n] == '}' {
                Some((seq![e], n + 1))
            } else {
                None
            }
        },
    }
}

/// What a text blob means: `{}` is the empty store, and otherwise the blob
/// must be one whole object of slots, consumed exactly.
pub open spec fn spec_decode(s: Seq<char>) -> Option<Seq<OwnerModel>> {
    if s.len() >= 1 && s[0] == '{' {
        if s.len() == 2 && s[1] == '}' {
            Some(Seq::empty())
        } else {
            match scan_entries(s, 1) {
                None => None,
                Some((v, end)) => if end == s.len() {
                    Some(v)
                } else {
                    None
                },
            }
        }
    } else {
        None
    }
}

/// A digit character read back as a value gives the digit.
proof fn lemma_digit_roundtrip(n: int)
    requires
        0 <= n <= 9,
    ensures
        is_digit(digit_char(n)),
        digit_val(digit_char(n)) == n,
{
}

/// Two rendered digits read back as a value give the number.
proof fn lemma_two_digits_inverse(n: int)
    requires
        0 <= n <= 99,
    ensures
        is_digit(two_digits(n)[0]),
        is_digit(two_digits(n)[1]),
        digit_val(two_digits(n)[0]) * 10 + digit_val(two_digits(n)[1]) == n,
{
    lemma_fundamental_div_mod(n, 10);
    lemma_mod_division_less_than_divisor(n, 10);
    lemma_div_is_ordered(n, 99, 10);
    lemma_digit_roundtrip(n / 10);
    lemma_digit_roundtrip(n % 10);
}

/// Four rendered digits read back as a value give the number.
proof fn lemma_four_digits_inverse(n: int)
    requires
        0 <= n <= 9999,
    ensures
        is_digit(four_digits(n)[0]),
        is_digit(four_digits(n)[1]),
        is_digit(four_digits(n)[2]),
        is_digit(four_digits(n)[3]),
        digit_val(four_digits(n)[0]) * 1000 + digit_val(four_digits(n)[1]) * 100 + digit_val(
            four_digits(n)[2],
        ) * 10 + digit_val(four_digits(n)[3]) == n,
{
    lemma_fundamental_div_mod(n, 10);
    lemma_fundamental_div_mod(n / 10, 10);
    lemma_fundamental_div_mod(n / 100, 10);
    lemma_div_denominator(n, 10, 10);
    lemma_div_denominator(n, 100, 10);
    lemma_mod_division_less_than_divisor(n, 10);
    lemma_mod_division_less_than_divisor(n / 10, 10);
    lemma_mod_division_less_than_divisor(n / 100, 10);
    lemma_div_is_ordered(n, 9999, 1000);
    lemma_digit_roundtrip(n / 1000);
    lemma_digit_roundtrip((n / 100) % 10);
    lemma_digit_roundtrip((n / 10) % 10);
    lemma_digit_roundtrip(n % 10);
}

/// A rendered instant at `pos` scans back to the same instant.
proof fn lemma_iso_complete(s: Seq<char>, q: int, i: Instant)
    requires
        instant_valid(i),
        prefix_at(s, q, iso_text(i)),
    ensures
        iso_shape_at(s, q),
        iso_value_at(s, q) == i,
{
    let t = iso_text(i);
    assert(t.len() == 16);
    assert forall|k: int| 0 <= k < 16 implies s[q + k] == t[k] by {
        assert(s.subrange(q, q + 16)[k] == s[q + k]);
    }
    lemma_four_digits_inverse(i.date.year as int);
    lemma_two_digits_inverse(i.date.month as int);
    lemma_two_digits_inverse(i.date.day as int);
    lemma_two_digits_inverse(i.time.hour as int);
    lemma_two_digits_inverse(i.time.minute as int);
    assert(t[0] == four_digits(i.date.year as int)[0]);
    assert(t[1] == four_digits(i.date.year as int)[1]);
    assert(t[2] == four_digits(i.date.year as int)[2]);
    assert(t[3] == four_digits(i.date.year as int)[3]);
    assert(t[4] == '-');
    assert(t[5] == two_digits(i.date.month as int)[0]);
    assert(t[6] == two_digits(i.date.month as int)[1]);
    assert(t[7] == '-');
    assert(t[8] == two_digits(i.date.day as int)[0]);
    assert(t[9] == two_digits(i.date.day as int)[1]);
    assert(t[10] == 'T');
    assert(t[11] == two_digits(i.time.hour as int)[0]);
    assert(t[12] == two_digits(i.time.hour as int)[1]);
    assert(t[13] == ':');
    assert(t[14] == two_digits(i.time.minute as int)[0]);
    assert(t[15] == two_digits(i.time.minute as int)[1]);
}

/// A prefix of the text carries each of its own subranges at the shifted
/// position.
proof fn lemma_prefix_slice(s: Seq<char>, pos: int, t: Seq<char>, o: int, seg: Seq<char>)
    requires
        prefix_at(s, pos, t),
        0 <= o,
        o + seg.len() <= t.len(),
        seg == t.subrange(o, o + seg.len() as int),
    ensures
        prefix_at(s, pos + o, seg),
{
    let g: int = seg.len() as int;
    assert(s.subrange(pos + o, pos + o + g) =~= t.subrange(o, o + g)) by {
        assert forall|j: int| 0 <= j < g implies #[trigger] s.subrange(pos + o, pos + o + g)[j]
            == t.subrange(o, o + g)[j] by {
            assert(s.subrange(pos, pos + t.len() as int)[o + j] == s[pos + o + j]);
            assert(s.subrange(pos + o, pos + o + g)[j] == s[pos + o + j]);
        }
    }
}

/// A prefix of the text pins each single character at its shifted position.
proof fn lemma_prefix_char(s: Seq<char>, pos: int, t: Seq<char>, o: int)
    requires
        prefix_at(s, pos, t),
        0 <= o < t.len(),
    ensures
        s[pos + o] == t[o],
{
    assert(s.subrange(pos, pos + t.len() as int)[o] == s[pos + o]);
}

/// Escaped content followed by its closing quote scans back to the content.
proof fn lemma_scan_content_complete(s: Seq<char>, pos: int, c: Seq<char>)
    requires
        prefix_at(s, pos, escape_text(c) + seq!['"']),
    ensures
        scan_content(s, pos) == Some((c, pos + escape_text(c).len() + 1)),
    decreases c.len(),
{
    let t = escape_text(c) + seq!['"'];
    if c.len() == 0 {
        assert(escape_text(c) =~= Seq::<char>::empty());
        assert(t[0] == '"');
        lemma_prefix_char(s, pos, t, 0);
        assert(Seq::<char>::empty() =~= c);
    } else {
        let c0 = c[0];
        let tail = c.drop_first();
        assert(escape_text(c) == (if c0 == '"' || c0 == '\\' {
            seq!['\\', c0]
        } else {
            seq![c0]
        }) + escape_text(tail));
        let seg = escape_text(tail) + seq!['"'];
        if c0 == '"' || c0 == '\\' {
            assert(t[0] == '\\');
            assert(t[1] == c0);
            lemma_prefix_char(s, pos, t, 0);
            lemma_prefix_char(s, pos, t, 1);
            assert(seg =~= t.subrange(2, 2 + seg.len() as int));
            lemma_prefix_slice(s, pos, t, 2, seg);
            lemma_scan_content_complete(s, pos + 2, tail);
            assert(seq![c0] + tail =~= c);
        } else {
            assert(t[0] == c0);
            lemma_prefix_char(s, pos, t, 0);
            assert(seg =~= t.subrange(1, 1 + seg.len() as int));
            lemma_prefix_slice(s, pos, t, 1, seg);
            lemma_scan_content_complete(s, pos + 1, tail);
            assert(seq![c0] + tail =~= c);
        }
    }
}

/// A rendered record at `pos` scans back to the same appointment.
#[verifier::rlimit(100)]
proof fn lemma_record_complete(s: Seq<char>, pos: int, a: ApptModel)
    requires
        appt_model_valid(a),
        prefix_at(s, pos, record_text(a)),
    ensures
        scan_record(s, pos) == Some((a, pos + record_text(a).len())),
{
    let t = record_text(a);
    let e: int = escape_text(a.description).len() as int;
    assert(iso_text(a.start).len() == 16);
    assert(iso_text(a.end).len() == 16);
    assert(t.len() == e + 90);
    assert(lit_open() =~= t.subrange(0, 16));
    lemma_prefix_slice(s, pos, t, 0, lit_open());
    let dseg = escape_text(a.description) + seq!['"'];
    assert(dseg =~= t.subrange(16, 17 + e));
    lemma_prefix_slice(s, pos, t, 16, dseg);
    lemma_scan_content_complete(s, pos + 16, a.description);
    let p1 = pos + 17 + e;
    assert(lit_sep1() =~= t.subrange(17 + e, 37 + e));
    lemma_prefix_slice(s, pos, t, 17 + e, lit_sep1());
    assert(iso_text(a.start) =~= t.subrange(37 + e, 53 + e));
    lemma_prefix_slice(s, pos, t, 37 + e, iso_text(a.start));
    lemma_iso_complete(s, p1 + 20, a.start);
    assert(lit_sep2() =~= t.subrange(53 + e, 72 + e));
    lemma_prefix_slice(s, pos, t, 53 + e, lit_sep2());
    assert(iso_text(a.end) =~= t.subrange(72 + e, 88 + e));
    lemma_prefix_slice(s, pos, t, 72 + e, iso_text(a.end));
    lemma_iso_complete(s, p1 + 55, a.end);
    assert(lit_close() =~= t.subrange(88 + e, 90 + e));
    lemma_prefix_slice(s, pos, t, 88 + e, lit_close());
}

/// A prefix made of two parts pins each part at its own position.
proof fn lemma_prefix_parts(s: Seq<char>, pos: int, x: Seq<char>, y: Seq<char>)
    requires
        prefix_at(s, pos, x + y),
    ensures
        prefix_at(s, pos, x),
        prefix_at(s, pos + x.len(), y),
{
    let t = x + y;
    let xl: int = x.len() as int;
    let yl: int = y.len() as int;
    assert(s.subrange(pos, pos + xl) =~= x) by {
        assert forall|j: int| 0 <= j < xl implies #[trigger] s.subrange(pos, pos + xl)[j] == x[j] by {
            assert(s.subrange(pos, pos + t.len() as int)[j] == s[pos + j]);
            assert(s.subrange(pos, pos + xl)[j] == s[pos + j]);
        }
    }
    assert(s.subrange(pos + xl, pos + xl + yl) =~= y) by {
        assert forall|j: int| 0 <= j < yl implies #[trigger] s.subrange(pos + xl, pos + xl + yl)[j]
            == y[j] by {
            assert(s.subrange(pos, pos + t.len() as int)[xl + j] == s[pos + xl + j]);
            assert(s.subrange(pos + xl, pos + xl + yl)[j] == s[pos + xl + j]);
        }
    }
}

/// Rendered records with the closing bracket scan back to the same sequence.
#[verifier::rlimit(100)]
#[verifier::spinoff_prover]
proof fn lemma_records_complete(s: Seq<char>, pos: int, list: Seq<ApptModel>)
    requires
        list.len() >= 1,
        forall|k: int| 0 <= k < list.len() ==> appt_model_valid(#[trigger] list[k]),
        prefix_at(s, pos, records_text(list) + seq![']']),
    ensures
        scan_records(s, pos) == Some((list, pos + records_text(list).len() + 1)),
    decreases list.len(),
{
    let r0 = record_text(list[0]);
    let rl: int = r0.len() as int;
    assert(rl >= 90);
    if list.len() == 1 {
        assert(records_text(list) == r0);
        lemma_prefix_parts(s, pos, r0, seq![']']);
        lemma_record_complete(s, pos, list[0]);
        lemma_prefix_char(s, pos + rl, seq![']'], 0);
        assert(s[pos + rl] == ']');
        assert(seq![list[0]] =~= list);
    } else {
        let rest = records_text(list.drop_first());
        assert(records_text(list) == r0 + seq![','] + rest);
        assert(records_text(list) + seq![']'] =~= (r0 + seq![',']) + (rest + seq![']']));
        lemma_prefix_parts(s, pos, r0 + seq![','], rest + seq![']']);
        lemma_prefix_parts(s, pos, r0, seq![',']);
        lemma_record_complete(s, pos, list[0]);
        lemma_prefix_char(s, pos + rl, seq![','], 0);
        assert(s[pos + rl] == ',');
        assert forall|k: int| 0 <= k < list.drop_first().len() implies appt_model_valid(
            #[trigger] list.drop_first()[k],
        ) by {
            assert(list.drop_first()[k] == list[k + 1]);
        }
        lemma_records_complete(s, pos + rl + 1, list.drop_first());
        assert(seq![list[0]] + list.drop_first() =~= list);
    }
}

/// A rendered slot at `pos` scans back to the same owner slot.
#[verifier::rlimit(100)]
#[verifier::spinoff_prover]
proof fn lemma_entry_complete(s: Seq<char>, pos: int, e: OwnerModel)
    requires
        owner_model_wf(e),
        prefix_at(s, pos, entry_text(e)),
    ensures
        scan_entry(s, pos) == Some((e, pos + entry_text(e).len())),
{
    let t = entry_text(e);
    let en: int = escape_text(e.name).len() as int;
    let rl: int = records_text(e.appts).len() as int;
    assert(t.len() == en + rl + 5);
    assert(t[0] == '"');
    lemma_prefix_char(s, pos, t, 0);
    let nseg = escape_text(e.name) + seq!['"'];
    assert(nseg =~= t.subrange(1, 2 + en));
    lemma_prefix_slice(s, pos, t, 1, nseg);
    lemma_scan_content_complete(s, pos + 1, e.name);
    let p1 = pos + 2 + en;
    assert(t[en + 2] == ':');
    assert(t[en + 3] == '[');
    lemma_prefix_char(s, pos, t, en + 2);
    lemma_prefix_char(s, pos, t, en + 3);
    let rseg = records_text(e.appts) + seq![']'];
    assert(rseg =~= t.subrange(en + 4, en + 4 + rl + 1));
    lemma_prefix_slice(s, pos, t, en + 4, rseg);
    lemma_records_complete(s, p1 + 2, e.appts);
    assert((OwnerModel { name: e.name, appts: e.appts }) == e);
}

/// Rendered slots with the closing brace scan back to the same sequence.
#[verifier::rlimit(100)]
#[verifier::spinoff_prover]
proof fn lemma_entries_complete(s: Seq<char>, pos: int, v: Seq<OwnerModel>)
    requires
        v.len() >= 1,
        forall|k: int| 0 <= k < v.len() ==> owner_model_wf(#[trigger] v[k]),
        prefix_at(s, pos, entries_text(v) + seq!['}']),
    ensures
        scan_entries(s, pos) == Some((v, pos + entries_text(v).len() + 1)),
    decreases v.len(),
{
    let e0 = entry_text(v[0]);
    let el: int = e0.len() as int;
    assert(el >= 5);
    if v.len() == 1 {
        assert(entries_text(v) == e0);
        lemma_prefix_parts(s, pos, e0, seq!['}']);
        lemma_entry_complete(s, pos, v[0]);
        lemma_prefix_char(s, pos + el, seq!['}'], 0);
        assert(s[pos + el] == '}');
        assert(seq![v[0]] =~= v);
    } else {
        let rest = entries_text(v.drop_first());
        assert(entries_text(v) == e0 + seq![','] + rest);
        assert(entries_text(v) + seq!['}'] =~= (e0 + seq![',']) + (rest + seq!['}']));
        lemma_prefix_parts(s, pos, e0 + seq![','], rest + seq!['}']);
        lemma_prefix_parts(s, pos, e0, seq![',']);
        lemma_entry_complete(s, pos, v[0]);
        lemma_prefix_char(s, pos + el, seq![','], 0);
        assert(s[pos + el] == ',');
        assert forall|k: int| 0 <= k < v.drop_first().len() implies owner_model_wf(
            #[trigger] v.drop_first()[k],
        ) by {
            assert(v.drop_first()[k] == v[k + 1]);
        }
        lemma_entries_complete(s, pos + el + 1, v.drop_first());
        assert(seq![v[0]] + v.drop_first() =~= v);
    }
}

/// Law: decoding inverts encoding. The canonical text of any well-formed
/// store value scans back to exactly that value, so a store written by
/// [`encode`] is recovered unchanged by [`decode`].
#[verifier::rlimit(100)]
#[verifier::spinoff_prover]
pub proof fn lemma_round_trip(v: Seq<OwnerModel>)
    requires
        store_model_wf(v),
    ensures
        spec_decode(store_text(v)) == Some(v),
{
    let s = store_text(v);
    assert(s[0] == '{');
    if v.len() == 0 {
        assert(entries_text(v) == Seq::<char>::empty());
        assert(s =~= seq!['{', '}']);
        assert(Seq::<OwnerModel>::empty() =~= v);
    } else {
        let el: int = entries_text(v).len() as int;
        assert(entry_text(v[0]).len() >= 5);
        assert(el >= 5) by {
            if v.len() > 1 {
                assert(entries_text(v) == entry_text(v[0]) + seq![','] + entries_text(
                    v.drop_first(),
                ));
            }
        }
        assert(s.len() == el + 2);
        assert(s =~= seq!['{'] + (entries_text(v) + seq!['}']));
        assert(s.subrange(0, s.len() as int) =~= s);
        assert(prefix_at(s, 0, seq!['{'] + (entries_text(v) + seq!['}'])));
        lemma_prefix_parts(s, 0, seq!['{'], entries_text(v) + seq!['}']);
        lemma_entries_complete(s, 1, v);
    }
}

/// Two parts pinned in sequence make one pinned prefix.
proof fn lemma_prefix_join(s: Seq<char>, pos: int, x: Seq<char>, y: Seq<char>)
    requires
        prefix_at(s, pos, x),
        prefix_at(s, pos + x.len(), y),
    ensures
        prefix_at(s, pos, x + y),
{
    let xl: int = x.len() as int;
    let yl: int = y.len() as int;
    assert(s.subrange(pos, pos + xl + yl) =~= x + y) by {
        assert forall|j: int| 0 <= j < xl + yl implies #[trigger] s.subrange(pos, pos + xl + yl)[j]
            == (x + y)[j] by {
            assert(s.subrange(pos, pos + xl + yl)[j] == s[pos + j]);
            if j < xl {
                assert(s.subrange(pos, pos + xl)[j] == s[pos + j]);
            } else {
                assert(s.subrange(pos + xl, pos + xl + yl)[j - xl] == s[pos + j]);
            }
        }
    }
}

/// A digit's value renders back as the same character.
proof fn lemma_digit_char_of(c: char)
    requires
        is_digit(c),
    ensures
        digit_char(digit_val(c)) == c,
{
}

/// A successful content scan consumed exactly the escaped content and its
/// closing quote.
proof fn lemma_scan_content_sound(s: Seq<char>, pos: int)
    requires
        scan_content(s, pos) is Some,
    ensures
        ({
            let (c, end) = scan_content(s, pos)->0;
            &&& 0 <= pos < end <= s.len()
            &&& end == pos + escape_text(c).len() + 1
            &&& s.subrange(pos, end) == escape_text(c) + seq!['"']
        }),
    decreases s.len() - pos,
{
    let (c, end) = scan_content(s, pos)->0;
    if s[pos] == '"' {
        assert(s.subrange(pos, pos + 1) =~= escape_text(Seq::<char>::empty()) + seq!['"']);
    } else if s[pos] == '\\' {
        lemma_scan_content_sound(s, pos + 2);
        let (c2, end2) = scan_content(s, pos + 2)->0;
        assert(c == seq![s[pos + 1]] + c2);
        assert(c[0] == s[pos + 1]);
        assert(c.drop_first() =~= c2);
        assert(escape_text(c) == seq!['\\', s[pos + 1]] + escape_text(c2));
        assert(s.subrange(pos, end) =~= escape_text(c) + seq!['"']) by {
            assert forall|j: int| 0 <= j < end - pos implies #[trigger] s.subrange(pos, end)[j] == (
            escape_text(c) + seq!['"'])[j] by {
                assert(s.subrange(pos, end)[j] == s[pos + j]);
                if j >= 2 {
                    assert(s.subrange(pos + 2, end)[j - 2] == s[pos + j]);
                }
            }
        }
    } else {
        lemma_scan_content_sound(s, pos + 1);
        let (c2, end2) = scan_content(s, pos + 1)->0;
        assert(c == seq![s[pos]] + c2);
        assert(c[0] == s[pos]);
        assert(c.drop_first() =~= c2);
        assert(escape_text(c) == seq![s[pos]] + escape_text(c2));
        assert(s.subrange(pos, end) =~= escape_text(c) + seq!['"']) by {
            assert forall|j: int| 0 <= j < end - pos implies #[trigger] s.subrange(pos, end)[j] == (
            escape_text(c) + seq!['"'])[j] by {
                assert(s.subrange(pos, end)[j] == s[pos + j]);
                if j >= 1 {
                    assert(s.subrange(pos + 1, end)[j - 1] == s[pos + j]);
                }
            }
        }
    }
}

/// Sixteen characters of the instant shape render back from their value.
#[verifier::rlimit(100)]
#[verifier::spinoff_prover]
proof fn lemma_iso_sound(s: Seq<char>, q: int)
    requires
        iso_shape_at(s, q),
    ensures
        prefix_at(s, q, iso_text(iso_value_at(s, q))),
{
    let i = iso_value_at(s, q);
    assert(digit_val(s[q]) * 1000 + digit_val(s[q + 1]) * 100 + digit_val(s[q + 2]) * 10
        + digit_val(s[q + 3]) <= 9999);
    lemma_four_digits_inverse(i.date.year as int);
    lemma_two_digits_inverse(i.date.month as int);
    lemma_two_digits_inverse(i.date.day as int);
    lemma_two_digits_inverse(i.time.hour as int);
    lemma_two_digits_inverse(i.time.minute as int);
    assert(four_digits(i.date.year as int) =~= seq![s[q], s[q + 1], s[q + 2], s[q + 3]]) by {
        lemma_four_digits_of(s[q], s[q + 1], s[q + 2], s[q + 3]);
    }
    assert(two_digits(i.date.month as int) =~= seq![s[q + 5], s[q + 6]]) by {
        lemma_two_digits_of(s[q + 5], s[q + 6]);
    }
    assert(two_digits(i.date.day as int) =~= seq![s[q + 8], s[q + 9]]) by {
        lemma_two_digits_of(s[q + 8], s[q + 9]);
    }
    assert(two_digits(i.time.hour as int) =~= seq![s[q + 11], s[q + 12]]) by {
        lemma_two_digits_of(s[q + 11], s[q + 12]);
    }
    assert(two_digits(i.time.minute as int) =~= seq![s[q + 14], s[q + 15]]) by {
        lemma_two_digits_of(s[q + 14], s[q + 15]);
    }
    assert(s.subrange(q, q + 16) =~= iso_text(i));
}

/// Two digit characters render back from the value they name.
proof fn lemma_two_digits_of(c1: char, c2: char)
    requires
        is_digit(c1),
        is_digit(c2),
    ensures
        two_digits(digit_val(c1) * 10 + digit_val(c2)) == seq![c1, c2],
{
    let n = digit_val(c1) * 10 + digit_val(c2);
    vstd::arithmetic::div_mod::lemma_fundamental_div_mod_converse_div(n, 10, digit_val(c1), digit_val(c2));
    vstd::arithmetic::div_mod::lemma_fundamental_div_mod_converse_mod(n, 10, digit_val(c1), digit_val(c2));
    lemma_digit_char_of(c1);
    lemma_digit_char_of(c2);
    assert(two_digits(n) =~= seq![c1, c2]);
}

/// Four digit characters render back from the value they name.
proof fn lemma_four_digits_of(c1: char, c2: char, c3: char, c4: char)
    requires
        is_digit(c1),
        is_digit(c2),
        is_digit(c3),
        is_digit(c4),
    ensures
        four_digits(
            digit_val(c1) * 1000 + digit_val(c2) * 100 + digit_val(c3) * 10 + digit_val(c4),
        ) == seq![c1, c2, c3, c4],
{
    let n = digit_val(c1) * 1000 + digit_val(c2) * 100 + digit_val(c3) * 10 + digit_val(c4);
    let m = digit_val(c2) * 100 + digit_val(c3) * 10 + digit_val(c4);
    vstd::arithmetic::div_mod::lemma_fundamental_div_mod_converse_div(n, 1000, digit_val(c1), m);
    vstd::arithmetic::div_mod::lemma_fundamental_div_mod_converse_mod(n, 1000, digit_val(c1), m);
    vstd::arithmetic::div_mod::lemma_fundamental_div_mod_converse_div(
        n,
        100,
        digit_val(c1) * 10 + digit_val(c2),
        digit_val(c3) * 10 + digit_val(c4),
    );
    vstd::arithmetic::div_mod::lemma_fundamental_div_mod_converse_div(
        n,
        10,
        digit_val(c1) * 100 + digit_val(c2) * 10 + digit_val(c3),
        digit_val(c4),
    );
    vstd::arithmetic::div_mod::lemma_fundamental_div_mod_converse_mod(
        n,
        10,
        digit_val(c1) * 100 + digit_val(c2) * 10 + digit_val(c3),
        digit_val(c4),
    );
    lemma_mod_division_less_than_divisor(n / 10, 10);
    vstd::arithmetic::div_mod::lemma_fundamental_div_mod_converse_mod(
        n / 10,
        10,
        digit_val(c1) * 10 + digit_val(c2),
        digit_val(c3),
    );
    vstd::arithmetic::div_mod::lemma_fundamental_div_mod_converse_div(
        n / 10,
        10,
        digit_val(c1) * 10 + digit_val(c2),
        digit_val(c3),
    );
    vstd::arithmetic::div_mod::lemma_fundamental_div_mod_converse_mod(
        n / 100,
        10,
        digit_val(c1),
        digit_val(c2),
    );
    lemma_div_denominator(n, 10, 10);
    lemma_div_denominator(n, 100, 10);
    lemma_digit_char_of(c1);
    lemma_digit_char_of(c2);
    lemma_digit_char_of(c3);
    lemma_digit_char_of(c4);
    assert(four_digits(n) =~= seq![c1, c2, c3, c4]);
}

/// A successful record scan consumed exactly the record's canonical text.
#[verifier::rlimit(100)]
#[verifier::spinoff_prover]
proof fn lemma_record_sound(s: Seq<char>, pos: int)
    requires
        scan_record(s, pos) is Some,
    ensures
        ({
            let (a, end) = scan_record(s, pos)->0;
            &&& 0 <= pos < end <= s.len()
            &&& end == pos + record_text(a).len()
            &&& s.subrange(pos, end) == record_text(a)
        }),
{
    let (a, end) = scan_record(s, pos)->0;
    lemma_scan_content_sound(s, pos + 16);
    let (desc, p1) = scan_content(s, pos + 16)->0;
    let e: int = escape_text(desc).len() as int;
    assert(p1 == pos + 17 + e);
    assert(prefix_at(s, pos + 16, escape_text(desc) + seq!['"']));
    lemma_iso_sound(s, p1 + 20);
    lemma_iso_sound(s, p1 + 55);
    lemma_prefix_join(s, pos, lit_open(), escape_text(desc) + seq!['"']);
    lemma_prefix_join(s, pos, lit_open() + (escape_text(desc) + seq!['"']), lit_sep1());
    lemma_prefix_join(
        s,
        pos,
        lit_open() + (escape_text(desc) + seq!['"']) + lit_sep1(),
        iso_text(a.start),
    );
    lemma_prefix_join(
        s,
        pos,
        lit_open() + (escape_text(desc) + seq!['"']) + lit_sep1() + iso_text(a.start),
        lit_sep2(),
    );
    lemma_prefix_join(
        s,
        pos,
        lit_open() + (escape_text(desc) + seq!['"']) + lit_sep1() + iso_text(a.start) + lit_sep2(),
        iso_text(a.end),
    );
    lemma_prefix_join(
        s,
        pos,
        lit_open() + (escape_text(desc) + seq!['"']) + lit_sep1() + iso_text(a.start) + lit_sep2()
            + iso_text(a.end),
        lit_close(),
    );
    assert(lit_open() + (escape_text(desc) + seq!['"']) + lit_sep1() + iso_text(a.start)
        + lit_sep2() + iso_text(a.end) + lit_close() =~= record_text(a));
    assert(end == pos + record_text(a).len());
    assert(s.subrange(pos, end) == record_text(a));
}

/// A successful records scan consumed exactly the records' canonical text
/// with its closing bracket.
#[verifier::rlimit(100)]
#[verifier::spinoff_prover]
proof fn lemma_records_sound(s: Seq<char>, pos: int)
    requires
        scan_records(s, pos) is Some,
    ensures
        ({
            let (list, end) = scan_records(s, pos)->0;
            &&& 0 <= pos < end <= s.len()
            &&& list.len() >= 1
            &&& end == pos + records_text(list).len() + 1
            &&& s.subrange(pos, end) == records_text(list) + seq![']']
        }),
    decreases s.len() - pos,
{
    let (list, end) = scan_records(s, pos)->0;
    lemma_record_sound(s, pos);
    let (a, n) = scan_record(s, pos)->0;
    assert(prefix_at(s, pos, record_text(a)));
    if s[n] == ',' {
        lemma_records_sound(s, n + 1);
        let (rest, end2) = scan_records(s, n + 1)->0;
        assert(list == seq![a] + rest);
        assert(list.len() >= 2);
        assert(list[0] == a);
        assert(list.drop_first() =~= rest);
        assert(records_text(list) == record_text(a) + seq![','] + records_text(rest));
        assert(s.subrange(n, n + 1) =~= seq![',']) by {
            assert(s.subrange(n, n + 1)[0] == s[n]);
        }
        lemma_prefix_join(s, pos, record_text(a), seq![',']);
        lemma_prefix_join(s, pos, record_text(a) + seq![','], records_text(rest) + seq![']']);
        assert(record_text(a) + seq![','] + (records_text(rest) + seq![']']) =~= records_text(list)
            + seq![']']);
        assert(s.subrange(pos, end) == records_text(list) + seq![']']);
    } else {
        assert(list == seq![a]);
        assert(records_text(list) == record_text(list[0]));
        assert(s.subrange(n, n + 1) =~= seq![']']) by {
            assert(s.subrange(n, n + 1)[0] == s[n]);
        }
        lemma_prefix_join(s, pos, record_text(a), seq![']']);
        assert(s.subrange(pos, end) == records_text(list) + seq![']']);
    }
}

/// A successful slot scan consumed exactly the slot's canonical text.
#[verifier::rlimit(100)]
#[verifier::spinoff_prover]
proof fn lemma_entry_sound(s: Seq<char>, pos: int)
    requires
        scan_entry(s, pos) is Some,
    ensures
        ({
            let (e, end) = scan_entry(s, pos)->0;
            &&& 0 <= pos < end <= s.len()
            &&& end == pos + entry_text(e).len()
            &&& s.subrange(pos, end) == entry_text(e)
        }),
{
    let (e, end) = scan_entry(s, pos)->0;
    lemma_scan_content_sound(s, pos + 1);
    let (name, p1) = scan_content(s, pos + 1)->0;
    let en: int = escape_text(name).len() as int;
    assert(p1 == pos + 2 + en);
    lemma_records_sound(s, p1 + 2);
    let (appts, end2) = scan_records(s, p1 + 2)->0;
    assert(s.subrange(pos, pos + 1) =~= seq!['"']) by {
        assert(s.subrange(pos, pos + 1)[0] == s[pos]);
    }
    assert(s.subrange(p1, p1 + 2) =~= seq![':', '[']) by {
        assert(s.subrange(p1, p1 + 2)[0] == s[p1]);
        assert(s.subrange(p1, p1 + 2)[1] == s[p1 + 1]);
    }
    lemma_prefix_join(s, pos, seq!['"'], escape_text(name) + seq!['"']);
    lemma_prefix_join(s, pos, seq!['"'] + (escape_text(name) + seq!['"']), seq![':', '[']);
    lemma_prefix_join(
        s,
        pos,
        seq!['"'] + (escape_text(name) + seq!['"']) + seq![':', '['],
        records_text(appts) + seq![']'],
    );
    assert(seq!['"'] + (escape_text(name) + seq!['"']) + seq![':', '['] + (records_text(appts)
        + seq![']']) =~= entry_text(e));
    assert(end == pos + entry_text(e).len());
    assert(s.subrange(pos, end) == entry_text(e));
}

/// A successful slots scan consumed exactly the slots' canonical text with
/// its closing brace.
proof fn lemma_entries_sound(s: Seq<char>, pos: int)
    requires
        scan_entries(s, pos) is Some,
    ensures
        ({
            let (v, end) = scan_entries(s, pos)->0;
            &&& 0 <= pos < end <= s.len()
            &&& v.len() >= 1
            &&& end == pos + entries_text(v).len() + 1
            &&& s.subrange(pos, end) == entries_text(v) + seq!['}']
        }),
    decreases s.len() - pos,
{
    let (v, end) = scan_entries(s, pos)->0;
    lemma_entry_sound(s, pos);
    let (e, n) = scan_entry(s, pos)->0;
    assert(prefix_at(s, pos, entry_text(e)));
    if s[n] == ',' {
        lemma_entries_sound(s, n + 1);
        let (rest, end2) = scan_entries(s, n + 1)->0;
        assert(v == seq![e] + rest);
        assert(v.len() >= 2);
        assert(v[0] == e);
        assert(v.drop_first() =~= rest);
        assert(entries_text(v) == entry_text(e) + seq![','] + entries_text(rest));
        assert(s.subrange(n, n + 1) =~= seq![',']) by {
            assert(s.subrange(n, n + 1)[0] == s[n]);
        }
        lemma_prefix_join(s, pos, entry_text(e), seq![',']);
        lemma_prefix_join(s, pos, entry_text(e) + seq![','], entries_text(rest) + seq!['}']);
        assert(entry_text(e) + seq![','] + (entries_text(rest) + seq!['}']) =~= entries_text(v)
            + seq!['}']);
        assert(s.subrange(pos, end) == entries_text(v) + seq!['}']);
    } else {
        assert(v == seq![e]);
        assert(entries_text(v) == entry_text(v[0]));
        assert(s.subrange(n, n + 1) =~= seq!['}']) by {
            assert(s.subrange(n, n + 1)[0] == s[n]);
        }
        lemma_prefix_join(s, pos, entry_text(e), seq!['}']);
        assert(s.subrange(pos, end) == entries_text(v) + seq!['}']);
    }
}

/// Law: every blob the scanner accepts is the canonical text of the value it
/// yields, so the codec's format has exactly one rendering per store value.
pub proof fn lemma_decode_sound(s: Seq<char>)
    requires
        spec_decode(s) is Some,
    ensures
        s == store_text(spec_decode(s)->0),
{
    let v = spec_decode(s)->0;
    if s.len() == 2 && s[1] == '}' {
        assert(entries_text(v) == Seq::<char>::empty());
        assert(s =~= store_text(v)) by {
            assert(s[0] == '{');
            assert(s[1] == '}');
        }
    } else {
        lemma_entries_sound(s, 1);
        let (v2, end) = scan_entries(s, 1)->0;
        assert(s.subrange(0, 1) =~= seq!['{']) by {
            assert(s.subrange(0, 1)[0] == s[0]);
        }
        lemma_prefix_join(s, 0, seq!['{'], entries_text(v2) + seq!['}']);
        assert(seq!['{'] + (entries_text(v2) + seq!['}']) =~= store_text(v2));
        assert(s.subrange(0, s.len() as int) =~= s);
        assert(s == store_text(v));
    }
}

/// Pushing an appointment extends the model sequence by its value.
proof fn lemma_models_push(v: Seq<Appointment>, a: Appointment)
    ensures
        models_of(v.push(a)) == models_of(v).push(a@),
{
    assert(models_of(v.push(a)) =~= models_of(v).push(a@));
}

/// Pushing a slot extends the slot model sequence by its value.
proof fn lemma_owner_models_push(v: Seq<OwnerEntry>, e: OwnerEntry)
    ensures
        owner_models_of(v.push(e)) == owner_models_of(v).push(e@),
{
    assert(owner_models_of(v.push(e)) =~= owner_models_of(v).push(e@));
}

/// Checks whether the text carries the literal at the position.
fn expect_lit(s: &str, pos: usize, lit: &str) -> (r: bool)
    requires
        pos <= s@.len(),
    ensures
        r == prefix_at(s@, pos as int, lit@),
{
    let n = s.unicode_len();
    let m = lit.unicode_len();
    if m > n - pos {
        return false;
    }
    let mut j: usize = 0;
    while j < m
        invariant
            0 <= j <= m,
            pos + m <= n,
            n == s@.len(),
            m == lit@.len(),
            forall|k: int| 0 <= k < j ==> s@[pos + k] == lit@[k],
        decreases m - j,
    {
        if s.get_char(pos + j) != lit.get_char(j) {
            proof {
                assert(s@.subrange(pos as int, pos + m as int)[j as int] == s@[pos + j]);
            }
            return false;
        }
        j = j + 1;
    }
    proof {
        assert(s@.subrange(pos as int, pos + m as int) =~= lit@) by {
            assert forall|k: int| 0 <= k < m implies #[trigger] s@.subrange(
                pos as int,
                pos + m as int,
            )[k] == lit@[k] by {
                assert(s@.subrange(pos as int, pos + m as int)[k] == s@[pos + k]);
            }
        }
    }
    true
}

/// Parses quoted-string content from `pos`, which follows the opening quote,
/// through the closing quote.
fn parse_content(s: &str, pos: usize) -> (r: Option<(String, usize)>)
    requires
        pos <= s@.len(),
    ensures
        r is None ==> scan_content(s@, pos as int) is None,
        r is Some ==> scan_content(s@, pos as int) == Some(((r->0).0@, (r->0).1 as int)) && pos
            < (r->0).1 <= s@.len(),
{
    let n = s.unicode_len();
    let mut i: usize = pos;
    let mut out = String::new();
    proof {
        if scan_content(s@, pos as int) is Some {
            lemma_scan_content_sound(s@, pos as int);
            let (c0, end0) = scan_content(s@, pos as int)->0;
            assert(out@ + c0 =~= c0);
        }
    }
    loop
        invariant
            pos <= i <= n,
            n == s@.len(),
            ({
                match scan_content(s@, i as int) {
                    Some((c, end)) => scan_content(s@, pos as int) == Some((out@ + c, end)) && i
                        < end <= n,
                    None => scan_content(s@, pos as int) is None,
                }
            }),
        decreases n - i,
    {
        proof {
            if scan_content(s@, i as int) is Some {
                lemma_scan_content_sound(s@, i as int);
            }
        }
        if i >= n {
            return None;
        }
        let c = s.get_char(i);
        if c == '"' {
            proof {
                assert(out@ + Seq::<char>::empty() =~= out@);
            }
            return Some((out, i + 1));
        } else if c == '\\' {
            if i + 1 >= n {
                return None;
            }
            let c2 = s.get_char(i + 1);
            if c2 == '"' || c2 == '\\' {
                let ghost before = out@;
                push_char(&mut out, c2);
                proof {
                    assert(out@ =~= before + seq![c2]);
                    if scan_content(s@, i as int + 2) is Some {
                        let (cc, end) = scan_content(s@, i as int + 2)->0;
                        assert(scan_content(s@, i as int) == Some((seq![c2] + cc, end)));
                        assert(before + (seq![c2] + cc) =~= out@ + cc);
                        lemma_scan_content_sound(s@, i as int + 2);
                    } else {
                        assert(scan_content(s@, i as int) is None);
                    }
                }
                i = i + 2;
            } else {
                return None;
            }
        } else {
            let ghost before = out@;
            push_char(&mut out, c);
            proof {
                assert(out@ =~= before + seq![c]);
                if scan_content(s@, i as int + 1) is Some {
                    let (cc, end) = scan_content(s@, i as int + 1)->0;
                    assert(scan_content(s@, i as int) == Some((seq![c] + cc, end)));
                    assert(before + (seq![c] + cc) =~= out@ + cc);
                    lemma_scan_content_sound(s@, i as int + 1);
                } else {
                    assert(scan_content(s@, i as int) is None);
                }
            }
            i = i + 1;
        }
    }
}

/// Parses sixteen `yyyy-mm-ddThh:mm` characters at `pos`.
fn parse_iso(s: &str, pos: usize) -> (r: Option<Instant>)
    requires
        pos <= s@.len(),
    ensures
        r is Some <==> iso_shape_at(s@, pos as int),
        r is Some ==> r->0 == iso_value_at(s@, pos as int),
{
    let n = s.unicode_len();
    if n - pos < 16 {
        return None;
    }
    let y1 = match crate::temporal::read_digit(s.get_char(pos)) {
        Some(v) => v,
        None => {
            return None;
        },
    };
    let y2 = match crate::temporal::read_digit(s.get_char(pos + 1)) {
        Some(v) => v,
        None => {
            return None;
        },
    };
    let y3 = match crate::temporal::read_digit(s.get_char(pos + 2)) {
        Some(v) => v,
        None => {
            return None;
        },
    };
    let y4 = match crate::temporal::read_digit(s.get_char(pos + 3)) {
        Some(v) => v,
        None => {
            return None;
        },
    };
    if s.get_char(pos + 4) != '-' {
        return None;
    }
    let m1 = match crate::temporal::read_digit(s.get_char(pos + 5)) {
        Some(v) => v,
        None => {
            return None;
        },
    };
    let m2 = match crate::temporal::read_digit(s.get_char(pos + 6)) {
        Some(v) => v,
        None => {
            return None;
        },
    };
    if s.get_char(pos + 7) != '-' {
        return None;
    }
    let d1 = match crate::temporal::read_digit(s.get_char(pos + 8)) {
        Some(v) => v,
        None => {
            return None;
        },
    };
    let d2 = match crate::temporal::read_digit(s.get_char(pos + 9)) {
        Some(v) => v,
        None => {
            return None;
        },
    };
    if s.get_char(pos + 10) != 'T' {
        return None;
    }
    let h1 = match crate::temporal::read_digit(s.get_char(pos + 11)) {
        Some(v) => v,
        None => {
            return None;
        },
    };
    let h2 = match crate::temporal::read_digit(s.get_char(pos + 12)) {
        Some(v) => v,
        None => {
            return None;
        },
    };
    if s.get_char(pos + 13) != ':' {
        return None;
    }
    let n1 = match crate::temporal::read_digit(s.get_char(pos + 14)) {
        Some(v) => v,
        None => {
            return None;
        },
    };
    let n2 = match crate::temporal::read_digit(s.get_char(pos + 15)) {
        Some(v) => v,
        None => {
            return None;
        },
    };
    Some(
        Instant {
            date: Date {
                year: y1 * 1000 + y2 * 100 + y3 * 10 + y4,
                month: m1 * 10 + m2,
                day: d1 * 10 + d2,
            },
            time: Time { hour: h1 * 10 + h2, minute: n1 * 10 + n2 },
        },
    )
}

/// Parses one appointment record at `pos`.
fn parse_record(s: &str, pos: usize) -> (r: Option<(Appointment, usize)>)
    requires
        pos <= s@.len(),
    ensures
        r is None ==> scan_record(s@, pos as int) is None,
        r is Some ==> scan_record(s@, pos as int) == Some(((r->0).0@, (r->0).1 as int)) && pos
            < (r->0).1 <= s@.len(),
{
    let n = s.unicode_len();
    proof {
        reveal_strlit("{\"description\":\"");
        assert(("{\"description\":\"")@ =~= lit_open());
        reveal_strlit(",\"start_date_time\":\"");
        assert((",\"start_date_time\":\"")@ =~= lit_sep1());
        reveal_strlit("\",\"end_date_time\":\"");
        assert(("\",\"end_date_time\":\"")@ =~= lit_sep2());
        reveal_strlit("\"}");
        assert(("\"}")@ =~= lit_close());
    }
    if !expect_lit(s, pos, "{\"description\":\"") {
        return None;
    }
    let (desc, p1) = match parse_content(s, pos + 16) {
        Some(x) => x,
        None => {
            return None;
        },
    };
    if !expect_lit(s, p1, ",\"start_date_time\":\"") {
        return None;
    }
    let start = match parse_iso(s, p1 + 20) {
        Some(x) => x,
        None => {
            return None;
        },
    };
    if !expect_lit(s, p1 + 36, "\",\"end_date_time\":\"") {
        return None;
    }
    let end0 = match parse_iso(s, p1 + 55) {
        Some(x) => x,
        None => {
            return None;
        },
    };
    if !expect_lit(s, p1 + 71, "\"}") {
        return None;
    }
    Some((Appointment { description: desc, start: start, end: end0 }, p1 + 73))
}

/// Parses comma-separated records through the closing `]`.
#[verifier::rlimit(100)]
#[verifier::spinoff_prover]
fn parse_records(s: &str, pos: usize) -> (r: Option<(Vec<Appointment>, usize)>)
    requires
        pos <= s@.len(),
    ensures
        r is None ==> scan_records(s@, pos as int) is None,
        r is Some ==> scan_records(s@, pos as int) == Some((models_of((r->0).0@), (r->0).1 as int))
            && pos < (r->0).1 <= s@.len(),
{
    let n = s.unicode_len();
    let mut out: Vec<Appointment> = Vec::new();
    let mut i: usize = pos;
    proof {
        assert(models_of(out@) =~= Seq::<ApptModel>::empty());
        if scan_records(s@, pos as int) is Some {
            lemma_records_sound(s@, pos as int);
            let (list0, end0) = scan_records(s@, pos as int)->0;
            assert(models_of(out@) + list0 =~= list0);
        }
    }
    loop
        invariant
            pos <= i <= n,
            n == s@.len(),
            ({
                match scan_records(s@, i as int) {
                    Some((list, end)) => scan_records(s@, pos as int) == Some(
                        (models_of(out@) + list, end),
                    ) && i < end <= n,
                    None => scan_records(s@, pos as int) is None,
                }
            }),
        decreases n - i,
    {
        proof {
            if scan_records(s@, i as int) is Some {
                lemma_records_sound(s@, i as int);
            }
        }
        let (a, na) = match parse_record(s, i) {
            Some(x) => x,
            None => {
                return None;
            },
        };
        let ghost am = a@;
        if na >= n {
            return None;
        }
        let t = s.get_char(na);
        if t == ',' {
            let ghost before = out@;
            out.push(a);
            proof {
                lemma_models_push(before, a);
                assert(models_of(out@) =~= models_of(before).push(am));
                if scan_records(s@, na as int + 1) is Some {
                    let (rest, end) = scan_records(s@, na as int + 1)->0;
                    assert(scan_records(s@, i as int) == Some((seq![am] + rest, end)));
                    assert(models_of(before) + (seq![am] + rest) =~= models_of(out@) + rest);
                    lemma_records_sound(s@, na as int + 1);
                } else {
                    assert(scan_records(s@, i as int) is None);
                }
            }
            i = na + 1;
        } else if t == ']' {
            let ghost before = out@;
            out.push(a);
            proof {
                lemma_models_push(before, a);
                assert(scan_records(s@, i as int) == Some((seq![am], na as int + 1)));
                assert(models_of(before) + seq![am] =~= models_of(out@));
            }
            return Some((out, na + 1));
        } else {
            return None;
        }
    }
}

/// Parses one owner's slot at `pos`.
fn parse_entry(s: &str, pos: usize) -> (r: Option<(OwnerEntry, usize)>)
    requires
        pos <= s@.len(),
    ensures
        r is None ==> scan_entry(s@, pos as int) is None,
        r is Some ==> scan_entry(s@, pos as int) == Some(((r->0).0@, (r->0).1 as int)) && pos
            < (r->0).1 <= s@.len(),
{
    let n = s.unicode_len();
    if pos >= n {
        return None;
    }
    if s.get_char(pos) != '"' {
        return None;
    }
    let (name, p1) = match parse_content(s, pos + 1) {
        Some(x) => x,
        None => {
            return None;
        },
    };
    if n - p1 < 2 {
        return None;
    }
    if s.get_char(p1) != ':' {
        return None;
    }
    if s.get_char(p1 + 1) != '[' {
        return None;
    }
    let (appts, end) = match parse_records(s, p1 + 2) {
        Some(x) => x,
        None => {
            return None;
        },
    };
    Some((OwnerEntry { owner: name, appts: appts }, end))
}

/// Parses comma-separated slots through the closing `}`.
#[verifier::rlimit(100)]
#[verifier::spinoff_prover]
fn parse_entries(s: &str, pos: usize) -> (r: Option<(Vec<OwnerEntry>, usize)>)
    requires
        pos <= s@.len(),
    ensures
        r is None ==> scan_entries(s@, pos as int) is None,
        r is Some ==> scan_entries(s@, pos as int) == Some(
            (owner_models_of((r->0).0@), (r->0).1 as int),
        ) && pos < (r->0).1 <= s@.len(),
{
    let n = s.unicode_len();
    let mut out: Vec<OwnerEntry> = Vec::new();
    let mut i: usize = pos;
    proof {
        assert(owner_models_of(out@) =~= Seq::<OwnerModel>::empty());
        if scan_entries(s@, pos as int) is Some {
            lemma_entries_sound(s@, pos as int);
            let (list0, end0) = scan_entries(s@, pos as int)->0;
            assert(owner_models_of(out@) + list0 =~= list0);
        }
    }
    loop
        invariant
            pos <= i <= n,
            n == s@.len(),
            ({
                match scan_entries(s@, i as int) {
                    Some((list, end)) => scan_entries(s@, pos as int) == Some(
                        (owner_models_of(out@) + list, end),
                    ) && i < end <= n,
                    None => scan_entries(s@, pos as int) is None,
                }
            }),
        decreases n - i,
    {
        proof {
            if scan_entries(s@, i as int) is Some {
                lemma_entries_sound(s@, i as int);
            }
        }
        let (e, ne) = match parse_entry(s, i) {
            Some(x) => x,
            None => {
                return None;
            },
        };
        let ghost em = e@;
        if ne >= n {
            return None;
        }
        let t = s.get_char(ne);
        if t == ',' {
            let ghost before = out@;
            out.push(e);
            proof {
                lemma_owner_models_push(before, e);
                assert(owner_models_of(out@) =~= owner_models_of(before).push(em));
                if scan_entries(s@, ne as int + 1) is Some {
                    let (rest, end) = scan_entries(s@, ne as int + 1)->0;
                    assert(scan_entries(s@, i as int) == Some((seq![em] + rest, end)));
                    assert(owner_models_of(before) + (seq![em] + rest) =~= owner_models_of(out@)
                        + rest);
                    lemma_entries_sound(s@, ne as int + 1);
                } else {
                    assert(scan_entries(s@, i as int) is None);
                }
            }
            i = ne + 1;
        } else if t == '}' {
            let ghost before = out@;
            out.push(e);
            proof {
                lemma_owner_models_push(before, e);
                assert(scan_entries(s@, i as int) == Some((seq![em], ne as int + 1)));
                assert(owner_models_of(before) + seq![em] =~= owner_models_of(out@));
            }
            return Some((out, ne + 1));
        } else {
            return None;
        }
    }
}

/// Checks one decoded slot against the slot invariant.
fn check_entry_wf(e: &OwnerEntry) -> (r: bool)
    ensures
        r == owner_model_wf(e@),
{
    if e.owner.as_str().is_empty() {
        return false;
    }
    let n = e.appts.len();
    if n == 0 {
        return false;
    }
    let mut k: usize = 0;
    while k < n
        invariant
            0 <= k <= n,
            n == e.appts@.len(),
            forall|j: int| 0 <= j < k ==> appt_model_valid(#[trigger] e@.appts[j]),
        decreases n - k,
    {
        if !crate::store::appt_valid_check(&e.appts[k]) {
            proof {
                assert(e@.appts[k as int] == e.appts@[k as int]@);
            }
            return false;
        }
        k = k + 1;
    }
    let mut k2: usize = 0;
    while k2 < n - 1
        invariant
            0 <= k2 <= n,
            n == e.appts@.len(),
            n >= 1,
            forall|j: int| 0 <= j < k2 ==> appt_le(#[trigger] e@.appts[j], e@.appts[j + 1]),
        decreases n - k2,
    {
        if crate::store::appt_before(&e.appts[k2 + 1], &e.appts[k2]) {
            proof {
                crate::store::lemma_canonical_order_total(
                    e@.appts[k2 as int],
                    e@.appts[k2 as int + 1],
                    e@.appts[k2 as int],
                );
                assert(!appts_sorted(e@.appts));
            }
            return false;
        }
        proof {
            crate::store::lemma_canonical_order_total(
                e@.appts[k2 as int],
                e@.appts[k2 as int + 1],
                e@.appts[k2 as int],
            );
        }
        k2 = k2 + 1;
    }
    proof {
        crate::store::lemma_adjacent_sorted(e@.appts);
    }
    true
}

/// Checks decoded slots against the whole-store invariant.
fn check_entries_wf(entries: &Vec<OwnerEntry>) -> (r: bool)
    ensures
        r == store_model_wf(owner_models_of(entries@)),
{
    let n = entries.len();
    let mut k: usize = 0;
    while k < n
        invariant
            0 <= k <= n,
            n == entries@.len(),
            forall|j: int| 0 <= j < k ==> owner_model_wf(#[trigger] owner_models_of(entries@)[j]),
        decreases n - k,
    {
        if !check_entry_wf(&entries[k]) {
            proof {
                assert(owner_models_of(entries@)[k as int] == entries@[k as int]@);
            }
            return false;
        }
        k = k + 1;
    }
    let mut a: usize = 0;
    while a < n
        invariant
            0 <= a <= n,
            n == entries@.len(),
            forall|j: int| 0 <= j < n ==> owner_model_wf(#[trigger] owner_models_of(entries@)[j]),
            forall|i2: int, j2: int|
                0 <= i2 < j2 < n && i2 < a ==> owner_models_of(entries@)[i2].name
                    != owner_models_of(entries@)[j2].name,
        decreases n - a,
    {
        let mut b: usize = a + 1;
        while b < n
            invariant
                a < n,
                a + 1 <= b <= n,
                n == entries@.len(),
                forall|j: int|
                    0 <= j < n ==> owner_model_wf(#[trigger] owner_models_of(entries@)[j]),
                forall|j2: int|
                    a < j2 < b ==> owner_models_of(entries@)[a as int].name != owner_models_of(
                        entries@,
                    )[j2].name,
            decreases n - b,
        {
            if crate::store::text_eq(entries[a].owner.as_str(), entries[b].owner.as_str()) {
                proof {
                    assert(owner_models_of(entries@)[a as int].name == entries@[a as int].owner@);
                    assert(owner_models_of(entries@)[b as int].name == entries@[b as int].owner@);
                }
                return false;
            }
            b = b + 1;
        }
        a = a + 1;
    }
    true
}

/// Deserializes a text blob into a store.
///
/// The empty blob stands for the empty store. Any other blob is accepted
/// exactly when it is the canonical text of a well-formed store, and then
/// yields exactly that store; everything else fails with `Corrupt`.
pub fn decode(text: &str) -> (r: Result<AppointmentStore, PersistenceError>)
    ensures
        r is Ok ==> r->Ok_0.wf(),
        text@.len() == 0 ==> r is Ok && r->Ok_0@ == Seq::<OwnerModel>::empty(),
        r is Ok && text@.len() > 0 ==> text@ == store_text(r->Ok_0@),
        forall|v: Seq<OwnerModel>|
            store_model_wf(v) && text@ == store_text(v) ==> r is Ok && r->Ok_0@ == v,
        r is Err ==> r->Err_0 == PersistenceError::Corrupt,
{
    let n = text.unicode_len();
    if n == 0 {
        let st = AppointmentStore::new();
        proof {
            assert forall|v: Seq<OwnerModel>|
                store_model_wf(v) && text@ == store_text(v) implies st@ == v by {
                assert(store_text(v).len() >= 2);
            }
        }
        return Ok(st);
    }
    proof {
        assert forall|v: Seq<OwnerModel>|
            store_model_wf(v) && text@ == store_text(v) implies spec_decode(text@) == Some(v) by {
            lemma_round_trip(v);
        }
    }
    if text.get_char(0) != '{' {
        return Err(PersistenceError::Corrupt);
    }
    if n == 2 && text.get_char(1) == '}' {
        let st = AppointmentStore::new();
        proof {
            assert(spec_decode(text@) == Some(Seq::<OwnerModel>::empty()));
            assert(text@ =~= seq!['{', '}']);
            assert(entries_text(Seq::<OwnerModel>::empty()) == Seq::<char>::empty());
            assert(store_text(st@) =~= text@);
        }
        return Ok(st);
    }
    let parsed = parse_entries(text, 1);
    let (entries, end) = match parsed {
        Some(x) => x,
        None => {
            proof {
                assert(spec_decode(text@) is None);
            }
            return Err(PersistenceError::Corrupt);
        },
    };
    if end != n {
        proof {
            assert(spec_decode(text@) is None);
        }
        return Err(PersistenceError::Corrupt);
    }
    if !check_entries_wf(&entries) {
        proof {
            assert(spec_decode(text@) == Some(owner_models_of(entries@)));
            assert forall|v: Seq<OwnerModel>|
                store_model_wf(v) && text@ == store_text(v) implies false by {
                lemma_round_trip(v);
            }
        }
        return Err(PersistenceError::Corrupt);
    }
    let st = AppointmentStore::from_entries(entries);
    proof {
        assert(spec_decode(text@) == Some(st@));
        lemma_decode_sound(text@);
        assert forall|v: Seq<OwnerModel>|
            store_model_wf(v) && text@ == store_text(v) implies st@ == v by {
            lemma_round_trip(v);
        }
    }
    Ok(st)
}

} // verus!
