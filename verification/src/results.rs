//! Timing results, and the document that they are kept in.

use crate::figure;
use crate::figure::{reads_float, FloatText};
use crate::text;
use crate::text::{after_prefix, lines, parse_number, push_decimal, without, without_back, Strip};
use vstd::prelude::*;
use vstd::string::*;

verus! {

/// Timing results of one implementation.
pub struct Results {
    /// Name of the implementation, and of the file that the results go to.
    pub name: String,
    pub entity_count: usize,
    pub steps: usize,
    pub warmups: usize,
    pub repeats: usize,
    /// Wall-clock duration of each timed run, in nanoseconds.
    pub durations_ns: Vec<u128>,
}

/// The smallest of some durations, or zero where there are none.
pub open spec fn smallest(durations: Seq<u128>) -> u128
    decreases durations.len(),
{
    if durations.len() == 0 {
        0
    } else if durations.len() == 1 {
        durations[0]
    } else {
        let before = smallest(durations.drop_last());
        if durations.last() < before {
            durations.last()
        } else {
            before
        }
    }
}

/// The sum of some durations.
pub open spec fn sum(durations: Seq<u128>) -> nat
    decreases durations.len(),
{
    if durations.len() == 0 {
        0
    } else {
        sum(durations.drop_last()) + durations.last() as nat
    }
}

proof fn lemma_sum_grows(durations: Seq<u128>, n: nat)
    requires
        n <= durations.len(),
    ensures
        sum(durations.take(n as int)) <= sum(durations),
    decreases durations.len(),
{
    if n == durations.len() {
        assert(durations.take(n as int) =~= durations);
    } else {
        lemma_sum_grows(durations.drop_last(), n);
        assert(durations.drop_last().take(n as int) =~= durations.take(n as int));
    }
}

impl Results {
    /// Duration of the fastest run, in nanoseconds.
    pub fn min_ns(&self) -> (r: u128)
        ensures
            r == smallest(self.durations_ns@),
    {
        let n = self.durations_ns.len();
        if n == 0 {
            return 0;
        }
        let mut r: u128 = self.durations_ns[0];
        let mut i: usize = 1;
        assert(self.durations_ns@.take(1) =~= seq![r]);
        while i < n
            invariant
                1 <= i <= n,
                n == self.durations_ns@.len(),
                r == smallest(self.durations_ns@.take(i as int)),
            decreases n - i,
        {
            assert(self.durations_ns@.take(i + 1).drop_last() =~= self.durations_ns@.take(
                i as int,
            ));
            if self.durations_ns[i] < r {
                r = self.durations_ns[i];
            }
            i += 1;
        }
        assert(self.durations_ns@.take(i as int) =~= self.durations_ns@);
        r
    }

    /// The sum of all durations and their number, of which the mean duration is the quotient;
    /// `None` where there are none.
    pub fn total_ns(&self) -> (r: Option<(u128, usize)>)
        requires
            sum(self.durations_ns@) <= u128::MAX,
        ensures
            match r {
                None => self.durations_ns@.len() == 0,
                Some((total, n)) => {
                    &&& n == self.durations_ns@.len()
                    &&& n > 0
                    &&& total == sum(self.durations_ns@)
                },
            },
    {
        let n = self.durations_ns.len();
        if n == 0 {
            return None;
        }
        let mut total: u128 = 0;
        let mut i: usize = 0;
        assert(self.durations_ns@.take(0) =~= seq![]);
        while i < n
            invariant
                i <= n,
                n == self.durations_ns@.len(),
                sum(self.durations_ns@) <= u128::MAX,
                total == sum(self.durations_ns@.take(i as int)),
            decreases n - i,
        {
            proof {
                assert(self.durations_ns@.take(i + 1).drop_last() =~= self.durations_ns@.take(
                    i as int,
                ));
                lemma_sum_grows(self.durations_ns@, (i + 1) as nat);
            }
            total = total + self.durations_ns[i];
            i += 1;
        }
        assert(self.durations_ns@.take(i as int) =~= self.durations_ns@);
        Some((total, n))
    }
}

/// The fastest run is one of the runs, and none was faster.
pub proof fn law_smallest_is_the_fastest_run(durations: Seq<u128>)
    requires
        durations.len() > 0,
    ensures
        durations.contains(smallest(durations)),
        forall|i: int| 0 <= i < durations.len() ==> smallest(durations) <= #[trigger] durations[i],
    decreases durations.len(),
{
    if durations.len() == 1 {
        assert(durations[0] == smallest(durations));
    } else {
        let before = durations.drop_last();
        law_smallest_is_the_fastest_run(before);
        let k = choose|k: int| 0 <= k < before.len() && before[k] == smallest(before);
        assert(durations[k] == smallest(before));
        assert(durations[durations.len() - 1] == durations.last());
        assert forall|i: int| 0 <= i < durations.len() implies smallest(durations)
            <= #[trigger] durations[i] by {
            if i < before.len() {
                assert(before[i] == durations[i]);
            }
        }
    }
}

/// Totals add up: no runs take no time, one run takes its duration, and runs after others take
/// the time of the ones and of the others. No run is longer than all of them together, and the
/// total is at least that of as many runs as the fastest.
pub proof fn law_totals_add_up(durations: Seq<u128>, more: Seq<u128>, d: u128)
    ensures
        sum(seq![]) == 0,
        sum(seq![d]) == d,
        sum(durations.push(d)) == sum(durations) + d,
        sum(durations + more) == sum(durations) + sum(more),
        forall|i: int| 0 <= i < durations.len() ==> #[trigger] durations[i] <= sum(durations),
        durations.len() * smallest(durations) <= sum(durations),
    decreases durations.len() + more.len(),
{
    assert(seq![d].drop_last() =~= seq![]);
    assert(sum(seq![d]) == sum(seq![]) + d);
    assert(durations.push(d).drop_last() =~= durations);
    if more.len() == 0 {
        assert(durations + more =~= durations);
    } else {
        assert((durations + more).drop_last() =~= durations + more.drop_last());
        law_totals_add_up(durations, more.drop_last(), d);
    }
    if durations.len() > 0 {
        let fewer = durations.drop_last();
        law_totals_add_up(fewer, seq![], d);
        assert forall|i: int| 0 <= i < durations.len() implies #[trigger] durations[i] <= sum(
            durations,
        ) by {
            if i < fewer.len() {
                assert(fewer[i] == durations[i]);
            }
        }
        law_smallest_is_the_fastest_run(durations);
        let least = smallest(durations);
        assert(least <= durations[durations.len() - 1]);
        if fewer.len() > 0 {
            law_smallest_is_the_fastest_run(fewer);
            let k = choose|k: int| 0 <= k < fewer.len() && fewer[k] == smallest(fewer);
            assert(fewer[k] == durations[k]);
            assert(fewer.len() * least <= fewer.len() * smallest(fewer)) by (nonlinear_arith)
                requires
                    least <= smallest(fewer),
            ;
        }
        assert(durations.len() * least == fewer.len() * least + least) by (nonlinear_arith)
            requires
                durations.len() == fewer.len() + 1,
        ;
        assert(fewer.len() * least <= sum(fewer)) by {
            if fewer.len() == 0 {
                assert(fewer.len() * least == 0) by (nonlinear_arith)
                    requires
                        fewer.len() == 0,
                ;
            }
        }
    } else {
        assert(durations.len() * smallest(durations) == 0) by (nonlinear_arith)
            requires
                durations.len() == 0,
        ;
    }
}

/// As many runs of one duration take as many times that duration.
pub proof fn law_equal_runs_take_their_multiple(durations: Seq<u128>, d: u128)
    requires
        forall|i: int| 0 <= i < durations.len() ==> #[trigger] durations[i] == d,
    ensures
        sum(durations) == durations.len() * d,
        durations.len() > 0 ==> smallest(durations) == d,
    decreases durations.len(),
{
    if durations.len() > 0 {
        let fewer = durations.drop_last();
        assert forall|i: int| 0 <= i < fewer.len() implies #[trigger] fewer[i] == d by {
            assert(fewer[i] == durations[i]);
        }
        law_equal_runs_take_their_multiple(fewer, d);
        law_totals_add_up(fewer, seq![], d);
        assert(fewer.push(d) =~= durations);
        assert(durations.len() * d == fewer.len() * d + d) by (nonlinear_arith)
            requires
                durations.len() == fewer.len() + 1,
        ;
        law_smallest_is_the_fastest_run(durations);
    }
}

/// The total does not depend on the order of the runs, nor does the fastest of them.
pub proof fn law_the_order_of_runs_does_not_matter(durations: Seq<u128>, other: Seq<u128>)
    requires
        durations.to_multiset() == other.to_multiset(),
    ensures
        durations.len() == other.len(),
        sum(durations) == sum(other),
        smallest(durations) == smallest(other),
    decreases durations.len(),
{
    durations.to_multiset_ensures();
    other.to_multiset_ensures();
    assert(durations.len() == durations.to_multiset().len());
    assert(other.len() == other.to_multiset().len());
    if durations.len() > 0 {
        let d = durations.last();
        let fewer = durations.drop_last();
        assert(durations.to_multiset().count(d) > 0) by {
            assert(durations.contains(durations[durations.len() - 1]));
        }
        assert(other.contains(d));
        let k = choose|k: int| 0 <= k < other.len() && other[k] == d;
        let rest = other.remove(k);
        let (a, b) = (other.take(k), other.skip(k + 1));
        assert(rest =~= a + b);
        assert(other =~= a.push(d) + b);
        assert(fewer =~= durations.remove(durations.len() - 1));
        assert(fewer.to_multiset() =~= rest.to_multiset());
        law_the_order_of_runs_does_not_matter(fewer, rest);
        law_totals_add_up(a, b, d);
        law_totals_add_up(a.push(d), b, d);
        law_smallest_is_the_fastest_run(durations);
        law_smallest_is_the_fastest_run(other);
        let x = smallest(durations);
        let y = smallest(other);
        assert(other.contains(x)) by {
            assert(durations.to_multiset().count(x) > 0);
        }
        assert(durations.contains(y)) by {
            assert(other.to_multiset().count(y) > 0);
        }
    }
}

// ---------------------------------------------------------------------------------------
// The document.
// ---------------------------------------------------------------------------------------

/// The figures of a measurement that are floating-point numbers, as they are printed.
pub struct Figures {
    pub mean_ns: FloatText,
    pub entity_steps_per_sec: FloatText,
    pub checksum: FloatText,
}

impl Figures {
    /// The figures are numbers, as their type says.
    pub open spec fn numbers(self) -> bool {
        &&& figure::is_float(self.mean_ns@)
        &&& figure::is_float(self.entity_steps_per_sec@)
        &&& figure::is_float(self.checksum@)
    }
}

/// A key and its value, as they are printed.
pub struct Entry {
    pub key: Seq<char>,
    pub value: Seq<char>,
}

/// An entry as a line without its line feed; a comma follows all but the last.
pub open spec fn line_of(entry: Entry, last: bool) -> Seq<char> {
    "  \""@ + entry.key + "\": "@ + entry.value + if last {
        seq![]
    } else {
        ","@
    }
}

/// The entries from number `i` on, one per line, and the closing brace.
pub open spec fn body_of(entries: Seq<Entry>, i: nat) -> Seq<char>
    decreases entries.len() - i,
{
    if i >= entries.len() {
        "}\n"@
    } else {
        line_of(entries[i as int], i + 1 == entries.len()) + "\n"@ + body_of(entries, i + 1)
    }
}

/// A flat document with one entry per line.
pub open spec fn document(entries: Seq<Entry>) -> Seq<char> {
    "{\n"@ + body_of(entries, 0)
}

/// Some durations in decimal, with a comma and a space between them.
pub open spec fn durations_text(durations: Seq<u128>, n: nat) -> Seq<char>
    decreases n,
{
    if n == 0 || n > durations.len() {
        seq![]
    } else {
        durations_text(durations, (n - 1) as nat) + (if n > 1 {
            ", "@
        } else {
            seq![]
        }) + text::decimal(durations[n - 1] as nat)
    }
}

impl Results {
    /// What a record of these results holds.
    pub open spec fn recorded(&self, figures: Figures) -> RecordModel {
        RecordModel {
            entity_count: self.entity_count as nat,
            steps: self.steps as nat,
            min_ns: smallest(self.durations_ns@) as nat,
            mean_ns: figures.mean_ns@,
            entity_steps_per_sec: figures.entity_steps_per_sec@,
            checksum: figures.checksum@,
        }
    }

    /// The entries of the document for these results.
    pub open spec fn entries(&self, figures: Figures) -> Seq<Entry> {
        seq![
            Entry { key: "name"@, value: "\""@ + self.name@ + "\""@ },
            Entry { key: "entity_count"@, value: text::decimal(self.entity_count as nat) },
            Entry { key: "steps"@, value: text::decimal(self.steps as nat) },
            Entry { key: "warmups"@, value: text::decimal(self.warmups as nat) },
            Entry { key: "repeats"@, value: text::decimal(self.repeats as nat) },
            Entry {
                key: "durations_ns"@,
                value: "["@ + durations_text(self.durations_ns@, self.durations_ns@.len()) + "]"@,
            },
            Entry {
                key: "min_ns"@,
                value: text::decimal(smallest(self.durations_ns@) as nat),
            },
            Entry { key: "mean_ns"@, value: figures.mean_ns@ },
            Entry { key: "entity_steps_per_sec"@, value: figures.entity_steps_per_sec@ },
            Entry { key: "checksum"@, value: figures.checksum@ },
        ]
    }

    /// The document for these results. The shape is fixed, and tiny.
    pub fn to_json(&self, figures: &Figures) -> (r: String)
        ensures
            r@ == document(self.entries(*figures)),
            one_line(self.name@) && smallest(self.durations_ns@) <= u64::MAX ==> record_in(r@)
                == Some(self.recorded(*figures)),
    {
        let ghost entries = self.entries(*figures);
        let mut out = "{\n".to_owned();
        let name = quoted(self.name.as_str());
        let durations = self.durations();
        push_entry(&mut out, "name", name.as_str(), false, Ghost(entries), Ghost(0));
        push_count(&mut out, "entity_count", self.entity_count as u128, Ghost(entries), Ghost(1));
        push_count(&mut out, "steps", self.steps as u128, Ghost(entries), Ghost(2));
        push_count(&mut out, "warmups", self.warmups as u128, Ghost(entries), Ghost(3));
        push_count(&mut out, "repeats", self.repeats as u128, Ghost(entries), Ghost(4));
        push_entry(
            &mut out,
            "durations_ns",
            durations.as_str(),
            false,
            Ghost(entries),
            Ghost(5),
        );
        push_count(&mut out, "min_ns", self.min_ns(), Ghost(entries), Ghost(6));
        push_entry(
            &mut out,
            "mean_ns",
            figures.mean_ns.as_str(),
            false,
            Ghost(entries),
            Ghost(7),
        );
        push_entry(
            &mut out,
            "entity_steps_per_sec",
            figures.entity_steps_per_sec.as_str(),
            false,
            Ghost(entries),
            Ghost(8),
        );
        push_entry(
            &mut out,
            "checksum",
            figures.checksum.as_str(),
            true,
            Ghost(entries),
            Ghost(9),
        );
        out.append("}\n");
        assert(out@ == document(entries));
        proof {
            if one_line(self.name@) && smallest(self.durations_ns@) <= u64::MAX {
                law_parse_undoes_to_json(*self, *figures);
            }
        }
        out
    }

    /// Where the document for these results is kept.
    pub fn path(&self) -> (r: String)
        ensures
            r@ == "results/"@ + self.name@ + ".json"@,
    {
        let mut out = "results/".to_owned();
        out.append(self.name.as_str());
        out.append(".json");
        out
    }

    /// The durations as a bracketed list.
    fn durations(&self) -> (r: String)
        ensures
            r@ == "["@ + durations_text(self.durations_ns@, self.durations_ns@.len()) + "]"@,
    {
        let mut out = "[".to_owned();
        let mut i: usize = 0;
        assert("["@ + durations_text(self.durations_ns@, 0) =~= "["@);
        while i < self.durations_ns.len()
            invariant
                i <= self.durations_ns@.len(),
                out@ == "["@ + durations_text(self.durations_ns@, i as nat),
            decreases self.durations_ns@.len() - i,
        {
            let ghost before = out@;
            if i > 0 {
                out.append(", ");
            }
            push_decimal(&mut out, self.durations_ns[i]);
            i += 1;
            assert(out@ =~= "["@ + durations_text(self.durations_ns@, i as nat));
        }
        out.append("]");
        out
    }
}

/// A text between quotes.
fn quoted(s: &str) -> (r: String)
    ensures
        r@ == "\""@ + s@ + "\""@,
{
    let mut out = "\"".to_owned();
    out.append(s);
    out.append("\"");
    out
}

/// Append entry number `i` of a document.
fn push_entry(
    out: &mut String,
    key: &str,
    value: &str,
    last: bool,
    Ghost(entries): Ghost<Seq<Entry>>,
    Ghost(i): Ghost<nat>,
)
    requires
        i < entries.len(),
        last == (i + 1 == entries.len()),
        entries[i as int] == (Entry { key: key@, value: value@ }),
    ensures
        final(out)@ + body_of(entries, i + 1) == old(out)@ + body_of(entries, i),
{
    out.append("  \"");
    out.append(key);
    out.append("\": ");
    out.append(value);
    if !last {
        out.append(",");
    }
    out.append("\n");
    assert(out@ + body_of(entries, i + 1) =~= old(out)@ + body_of(entries, i));
}

/// Append entry number `i` of a document, an integer that is not the last.
fn push_count(
    out: &mut String,
    key: &str,
    value: u128,
    Ghost(entries): Ghost<Seq<Entry>>,
    Ghost(i): Ghost<nat>,
)
    requires
        i + 1 < entries.len(),
        entries[i as int] == (Entry { key: key@, value: text::decimal(value as nat) }),
    ensures
        final(out)@ + body_of(entries, i + 1) == old(out)@ + body_of(entries, i),
{
    let mut printed = String::new();
    push_decimal(&mut printed, value);
    assert(printed@ =~= text::decimal(value as nat));
    push_entry(out, key, printed.as_str(), false, Ghost(entries), Ghost(i));
}

// ---------------------------------------------------------------------------------------
// Reading a document.
// ---------------------------------------------------------------------------------------

/// What stands before a value: the key between quotes, and a colon.
pub open spec fn needle(key: Seq<char>) -> Seq<char> {
    "\""@ + key + "\":"@
}

/// A value without what is around it: white space, commas behind it, and quotes.
pub open spec fn bare(rest: Seq<char>) -> Seq<char> {
    text::strip_both(
        text::strip_both(
            text::strip_back(text::strip_both(rest, Strip::White), Strip::Comma),
            Strip::White,
        ),
        Strip::Quote,
    )
}

/// The value on the first of some lines that begins with `wanted`.
pub open spec fn value_in(lines: Seq<Seq<char>>, wanted: Seq<char>) -> Option<Seq<char>>
    decreases lines.len(),
{
    if lines.len() == 0 {
        None
    } else {
        let line = text::strip_both(lines[0], Strip::White);
        if text::starts_with(line, wanted) {
            Some(bare(line.skip(wanted.len() as int)))
        } else {
            value_in(lines.skip(1), wanted)
        }
    }
}

/// The value that a document has for `key`.
pub open spec fn value_of(json: Seq<char>, key: Seq<char>) -> Option<Seq<char>> {
    value_in(text::lines_of(json), needle(key))
}

/// The text of an optional string.
pub open spec fn owned_text(s: Option<String>) -> Option<Seq<char>> {
    match s {
        Some(s) => Some(s@),
        None => None,
    }
}

/// Extract the value for `key` from a flat document, without quotes and trailing commas; `None`
/// if the key is absent.
pub fn field(json: &str, key: &str) -> (r: Option<String>)
    ensures
        owned_text(r) == value_of(json@, key@),
{
    let mut wanted = "\"".to_owned();
    wanted.append(key);
    wanted.append("\":");
    let all = lines(json);
    let ghost seen = text::texts(all@);
    let mut i: usize = 0;
    assert(seen.skip(0) =~= seen);
    while i < all.len()
        invariant
            i <= all@.len(),
            seen == text::texts(all@),
            wanted@ == needle(key@),
            value_of(json@, key@) == value_in(seen.skip(i as int), needle(key@)),
        decreases all@.len() - i,
    {
        let line = without(all[i], Strip::White);
        assert(seen.skip(i as int)[0] == all@[i as int]@);
        match after_prefix(line, wanted.as_str()) {
            Some(rest) => {
                let value = without(
                    without(
                        without_back(without(rest, Strip::White), Strip::Comma),
                        Strip::White,
                    ),
                    Strip::Quote,
                );
                return Some(value.to_owned());
            },
            None => {},
        }
        assert(seen.skip(i as int).skip(1) =~= seen.skip(i + 1));
        i += 1;
    }
    None
}

/// The part of a document that is tabulated. Figures that are no integers stay as they are
/// printed.
pub struct Record {
    pub entity_count: u64,
    pub steps: u64,
    pub min_ns: u64,
    pub mean_ns: String,
    pub entity_steps_per_sec: String,
    pub checksum: String,
}

/// The mathematical value of a [`Record`].
#[verifier::ext_equal]
pub struct RecordModel {
    pub entity_count: nat,
    pub steps: nat,
    pub min_ns: nat,
    pub mean_ns: Seq<char>,
    pub entity_steps_per_sec: Seq<char>,
    pub checksum: Seq<char>,
}

impl View for Record {
    type V = RecordModel;

    open spec fn view(&self) -> RecordModel {
        RecordModel {
            entity_count: self.entity_count as nat,
            steps: self.steps as nat,
            min_ns: self.min_ns as nat,
            mean_ns: self.mean_ns@,
            entity_steps_per_sec: self.entity_steps_per_sec@,
            checksum: self.checksum@,
        }
    }
}

/// The count that a document has for `key`.
pub open spec fn count_of(json: Seq<char>, key: Seq<char>) -> Option<nat> {
    match value_of(json, key) {
        Some(value) => text::parsed(value, u64::MAX as nat),
        None => None,
    }
}

/// The floating-point number that a document has under a key, as it is printed.
pub open spec fn float_of(json: Seq<char>, key: Seq<char>) -> Option<Seq<char>> {
    match value_of(json, key) {
        Some(value) => if figure::is_float(value) {
            Some(value)
        } else {
            None
        },
        None => None,
    }
}

/// What a document says, if it has all that is tabulated, and numbers where it should.
pub open spec fn record_in(json: Seq<char>) -> Option<RecordModel> {
    match (
        count_of(json, "entity_count"@),
        count_of(json, "steps"@),
        count_of(json, "min_ns"@),
        float_of(json, "mean_ns"@),
        float_of(json, "entity_steps_per_sec"@),
        value_of(json, "checksum"@),
    ) {
        (
            Some(entity_count),
            Some(steps),
            Some(min_ns),
            Some(mean_ns),
            Some(entity_steps_per_sec),
            Some(checksum),
        ) => Some(
            RecordModel {
                entity_count,
                steps,
                min_ns,
                mean_ns,
                entity_steps_per_sec,
                checksum,
            },
        ),
        _ => None,
    }
}

/// Extract a count.
fn count(json: &str, key: &str) -> (r: Option<u64>)
    ensures
        match r {
            Some(n) => count_of(json@, key@) == Some(n as nat),
            None => count_of(json@, key@) is None,
        },
{
    match field(json, key) {
        Some(value) => parse_number(value.as_str(), u64::MAX),
        None => None,
    }
}

/// Extract a floating-point number, as it is printed.
fn float(json: &str, key: &str) -> (r: Option<String>)
    ensures
        owned_text(r) == float_of(json@, key@),
{
    match field(json, key) {
        Some(value) => if reads_float(value.as_str()) {
            Some(value)
        } else {
            None
        },
        None => None,
    }
}

impl Record {
    /// Read a document as [`Results::to_json`] writes it.
    pub fn parse(json: &str) -> (r: Option<Record>)
        ensures
            match r {
                Some(record) => record_in(json@) == Some(record@),
                None => record_in(json@) is None,
            },
    {
        match (
            count(json, "entity_count"),
            count(json, "steps"),
            count(json, "min_ns"),
            float(json, "mean_ns"),
            float(json, "entity_steps_per_sec"),
            field(json, "checksum"),
        ) {
            (
                Some(entity_count),
                Some(steps),
                Some(min_ns),
                Some(mean_ns),
                Some(entity_steps_per_sec),
                Some(checksum),
            ) => Some(
                Record { entity_count, steps, min_ns, mean_ns, entity_steps_per_sec, checksum },
            ),
            _ => None,
        }
    }
}

// ---------------------------------------------------------------------------------------
// Reading gives back what was written.
// ---------------------------------------------------------------------------------------

/// No line ends inside `s`.
pub open spec fn one_line(s: Seq<char>) -> bool {
    forall|i: int| 0 <= i < s.len() ==> #[trigger] s[i] != '\n'
}

/// No quote stands in `s`.
pub open spec fn quote_free(s: Seq<char>) -> bool {
    forall|i: int| 0 <= i < s.len() ==> #[trigger] s[i] != '"'
}

/// `s` has nothing around it that reading would strip: no white space at its ends and no comma
/// behind it.
pub open spec fn tidy(s: Seq<char>) -> bool {
    &&& text::strip_both(s, Strip::White) == s
    &&& text::strip_back(s, Strip::Comma) == s
}

proof fn lemma_strip_shortens(s: Seq<char>, what: Strip)
    ensures
        text::strip_front(s, what).len() <= s.len(),
        text::strip_back(s, what).len() <= s.len(),
    decreases s.len(),
{
    if s.len() > 0 {
        lemma_strip_shortens(s.skip(1), what);
        lemma_strip_shortens(s.drop_last(), what);
    }
}

proof fn lemma_tidy_ends(s: Seq<char>)
    requires
        text::strip_both(s, Strip::White) == s,
        s.len() > 0,
    ensures
        !text::white_space(s[0]),
        !text::white_space(s.last()),
{
    let front = text::strip_front(s, Strip::White);
    lemma_strip_shortens(s, Strip::White);
    lemma_strip_shortens(front, Strip::White);
    if text::white_space(s[0]) {
        lemma_strip_shortens(s.skip(1), Strip::White);
    }
    assert(front == s);
    if text::white_space(s.last()) {
        lemma_strip_shortens(s.drop_last(), Strip::White);
    }
}

/// One line more: a line in front of a text is its first line.
proof fn lemma_lines_step(a: Seq<char>, b: Seq<char>)
    requires
        one_line(a),
    ensures
        text::lines_of(a + "\n"@ + b) == seq![text::chomped(a)] + text::lines_of(b),
{
    reveal_strlit("\n");
    let s = a + "\n"@ + b;
    let feed = seq!['\n'];
    text::lemma_first_at(s, feed, 0);
    assert(s.subrange(a.len() as int, a.len() + 1int) =~= feed);
    assert(text::occurs_at(s, feed, a.len()));
    let e = text::first_at(s, feed, 0)->Some_0;
    assert(s.subrange(e as int, e + 1int)[0] == s[e as int]);
    if e < a.len() {
        assert(a[e as int] == '\n');
    }
    assert(s.take(e as int) =~= a);
    assert(s.skip(e + 1int) =~= b);
}

/// The line of an entry is read as the entry: stripped, it begins with the key, and what
/// follows is the value.
proof fn lemma_line_reads(entry: Entry, last: bool)
    requires
        tidy(entry.value),
    ensures
        ({
            let line = text::strip_both(text::chomped(line_of(entry, last)), Strip::White);
            &&& text::starts_with(line, needle(entry.key))
            &&& bare(line.skip(needle(entry.key).len() as int)) == text::strip_both(
                entry.value,
                Strip::Quote,
            )
        }),
{
    reveal_strlit("  \"");
    reveal_strlit("\": ");
    reveal_strlit("\"");
    reveal_strlit("\":");
    reveal_strlit(",");
    let v = entry.value;
    let head = needle(entry.key);
    let tail: Seq<char> = if last {
        seq![]
    } else {
        ","@
    };
    let raw = line_of(entry, last);
    let inner = head + seq![' '] + v + tail;
    if v.len() > 0 {
        lemma_tidy_ends(v);
    }
    // No carriage return stands at the end of the line.
    assert(raw.len() > 0);
    assert(raw.last() != '\r') by {
        if last && v.len() > 0 {
            assert(raw.last() == v.last());
        }
    }
    assert(text::chomped(raw) == raw);
    // The indentation goes.
    assert(raw =~= seq![' ', ' '] + inner);
    assert(raw.skip(1).skip(1) =~= inner);
    assert(inner[0] == '"');
    assert(text::strip_front(inner, Strip::White) == inner);
    assert(text::strip_front(raw.skip(1), Strip::White) == inner);
    assert(text::strip_front(raw, Strip::White) == inner);
    let line = text::strip_both(raw, Strip::White);
    let rest = line.skip(head.len() as int);
    if last && v.len() == 0 {
        assert(inner.last() == ' ');
        assert(inner.drop_last() =~= head);
        assert(head.last() == ':');
        assert(text::strip_back(head, Strip::White) == head);
        assert(line == head);
        assert(line.subrange(0, head.len() as int) =~= head);
        assert(rest =~= v);
    } else {
        if last {
            assert(inner.last() == v.last());
        } else {
            assert(inner.last() == ',');
        }
        assert(line == inner);
        assert(line.subrange(0, head.len() as int) =~= head);
        assert(rest =~= seq![' '] + v + tail);
        let trimmed = v + tail;
        assert(rest.skip(1) =~= trimmed);
        if v.len() > 0 {
            assert(trimmed[0] == v[0]);
        } else {
            assert(trimmed[0] == ',');
        }
        assert(text::strip_front(trimmed, Strip::White) == trimmed);
        assert(text::strip_front(rest, Strip::White) == trimmed);
        assert(trimmed.last() == inner.last());
        assert(text::strip_both(rest, Strip::White) == trimmed);
        if last {
            assert(trimmed =~= v);
        } else {
            assert(trimmed.drop_last() =~= v);
            assert(text::strip_back(trimmed, Strip::Comma) == text::strip_back(v, Strip::Comma));
        }
    }
}

/// The line of an entry does not begin with the key of another.
proof fn lemma_line_of_another(entry: Entry, last: bool, key: Seq<char>)
    requires
        quote_free(entry.key),
        quote_free(key),
        entry.key != key,
    ensures
        !text::starts_with(
            text::strip_both(text::chomped(line_of(entry, last)), Strip::White),
            needle(key),
        ),
{
    reveal_strlit("  \"");
    reveal_strlit("\": ");
    reveal_strlit("\"");
    reveal_strlit("\":");
    reveal_strlit(",");
    let raw = text::chomped(line_of(entry, last));
    let line = text::strip_both(raw, Strip::White);
    let mine = needle(entry.key);
    let other = needle(key);
    lemma_stripped_line(entry, last);
    if text::starts_with(line, other) {
        assert(line.subrange(0, other.len() as int) == other);
        assert forall|i: int| 0 <= i < other.len() implies line[i] == #[trigger] other[i] by {
            assert(line.subrange(0, other.len() as int)[i] == line[i]);
        }
        let (m, n) = (entry.key.len() as int, key.len() as int);
        assert forall|i: int| 0 <= i < mine.len() implies line[i] == #[trigger] mine[i] by {}
        if m < n {
            assert(mine[1 + m] == '"');
            assert(other[1 + m] == key[m]);
        } else if n < m {
            assert(other[1 + n] == '"');
            assert(mine[1 + n] == entry.key[n]);
        } else {
            assert forall|i: int| 0 <= i < n implies entry.key[i] == #[trigger] key[i] by {
                assert(mine[1 + i] == entry.key[i]);
                assert(other[1 + i] == key[i]);
            }
            assert(entry.key =~= key);
        }
    }
}

/// However its value ends, the line of an entry still begins with its key once it is stripped.
proof fn lemma_stripped_line(entry: Entry, last: bool)
    ensures
        ({
            let line = text::strip_both(text::chomped(line_of(entry, last)), Strip::White);
            &&& needle(entry.key).len() <= line.len()
            &&& forall|i: int|
                0 <= i < needle(entry.key).len() ==> line[i] == #[trigger] needle(entry.key)[i]
        }),
{
    reveal_strlit("  \"");
    reveal_strlit("\": ");
    reveal_strlit("\"");
    reveal_strlit("\":");
    reveal_strlit(",");
    let head = needle(entry.key);
    let raw = line_of(entry, last);
    let cut = text::chomped(raw);
    let tail: Seq<char> = if last {
        seq![]
    } else {
        ","@
    };
    let inner = cut.skip(2);
    assert(raw =~= seq![' ', ' '] + (head + seq![' '] + entry.value + tail));
    assert(cut.len() >= 2 + head.len());
    assert forall|i: int| 0 <= i < head.len() implies inner[i] == #[trigger] head[i] by {
        assert(cut[2 + i] == raw[2 + i]);
    }
    assert(cut[0] == ' ' && cut[1] == ' ');
    assert(inner[0] == head[0]);
    assert(cut.skip(1).skip(1) =~= inner);
    assert(text::strip_front(inner, Strip::White) == inner);
    assert(text::strip_front(cut.skip(1), Strip::White) == inner);
    assert(text::strip_front(cut, Strip::White) == inner);
    assert(inner[head.len() - 1] == ':');
    lemma_strip_back_keeps(inner, head.len());
}

/// Stripping the back of a text goes no further than its last character that stays.
proof fn lemma_strip_back_keeps(s: Seq<char>, n: nat)
    requires
        0 < n <= s.len(),
        !text::white_space(s[n - 1]),
    ensures
        text::strip_back(s, Strip::White).len() >= n,
        forall|i: int| 0 <= i < n ==> #[trigger] text::strip_back(s, Strip::White)[i] == s[i],
    decreases s.len(),
{
    if text::white_space(s.last()) {
        lemma_strip_back_keeps(s.drop_last(), n);
        assert forall|i: int| 0 <= i < n implies #[trigger] text::strip_back(
            s,
            Strip::White,
        )[i] == s[i] by {
            assert(s.drop_last()[i] == s[i]);
        }
    }
}

/// The entries before number `k` do not get in the way of reading it.
pub open spec fn reads_past(entries: Seq<Entry>, k: int) -> bool {
    &&& forall|i: int|
        0 <= i <= k ==> one_line((#[trigger] entries[i]).key) && one_line(entries[i].value)
            && quote_free(entries[i].key)
    &&& forall|i: int| 0 <= i < k ==> (#[trigger] entries[i]).key != entries[k].key
}

/// Reading a key of a document gives back the value that was written for it, without the
/// quotes around it.
pub proof fn law_field_reads_what_was_written(entries: Seq<Entry>, k: int)
    requires
        0 <= k < entries.len(),
        reads_past(entries, k),
        tidy(entries[k].value),
    ensures
        value_of(document(entries), entries[k].key) == Some(
            text::strip_both(entries[k].value, Strip::Quote),
        ),
{
    reveal_strlit("{\n");
    reveal_strlit("\n");
    reveal_strlit("\"");
    let wanted = needle(entries[k].key);
    let body = body_of(entries, 0);
    assert(document(entries) =~= seq!['{'] + "\n"@ + body);
    lemma_lines_step(seq!['{'], body);
    let all = text::lines_of(document(entries));
    let first = text::strip_both(seq!['{'], Strip::White);
    assert(all[0] == seq!['{']);
    assert(first == seq!['{']);
    assert(wanted[0] == '"');
    if text::starts_with(first, wanted) {
        assert(first.subrange(0, wanted.len() as int)[0] == '{');
    }
    assert(all.skip(1) =~= text::lines_of(body));
    lemma_body_reads(entries, k, 0);
}

proof fn lemma_body_reads(entries: Seq<Entry>, k: int, i: int)
    requires
        0 <= i <= k < entries.len(),
        reads_past(entries, k),
        tidy(entries[k].value),
    ensures
        value_in(text::lines_of(body_of(entries, i as nat)), needle(entries[k].key)) == Some(
            text::strip_both(entries[k].value, Strip::Quote),
        ),
    decreases k - i,
{
    reveal_strlit("  \"");
    reveal_strlit("\": ");
    reveal_strlit(",");
    let entry = entries[i];
    let last = i + 1 == entries.len();
    let line = line_of(entry, last);
    let rest = body_of(entries, (i + 1) as nat);
    assert(one_line(line)) by {
        assert(one_line(entry.key) && one_line(entry.value));
        assert forall|j: int| 0 <= j < line.len() implies #[trigger] line[j] != '\n' by {
            let (a, b) = (3 + entry.key.len() as int, 3 + entry.key.len() + 3 as int);
            if 3 <= j < a {
                assert(line[j] == entry.key[j - 3]);
            } else if b <= j < b + entry.value.len() {
                assert(line[j] == entry.value[j - b]);
            }
        }
    }
    lemma_lines_step(line, rest);
    let all = text::lines_of(body_of(entries, i as nat));
    assert(all[0] == text::chomped(line));
    assert(all.skip(1) =~= text::lines_of(rest));
    if i == k {
        lemma_line_reads(entry, last);
    } else {
        assert(quote_free(entries[k].key));
        lemma_line_of_another(entry, last, entries[k].key);
        lemma_body_reads(entries, k, i + 1);
    }
}

/// A decimal number is one line with nothing around it.
proof fn lemma_decimal_is_plain(n: nat)
    ensures
        one_line(text::decimal(n)),
        tidy(text::decimal(n)),
        text::strip_both(text::decimal(n), Strip::Quote) == text::decimal(n),
{
    text::lemma_decimal(n);
    let s = text::decimal(n);
    assert(text::is_digit(s[0]));
    assert(text::is_digit(s[s.len() - 1]));
    assert forall|i: int| 0 <= i < s.len() implies #[trigger] s[i] != '\n' by {
        assert(text::is_digit(s[i]));
    }
}

proof fn lemma_durations_one_line(durations: Seq<u128>, n: nat)
    requires
        n <= durations.len(),
    ensures
        one_line(durations_text(durations, n)),
    decreases n,
{
    reveal_strlit(", ");
    if n > 0 {
        lemma_durations_one_line(durations, (n - 1) as nat);
        lemma_decimal_is_plain(durations[n - 1] as nat);
    }
}

/// A figure is printed as one line with nothing around it that reading would strip.
pub open spec fn printable(s: Seq<char>) -> bool {
    one_line(s) && tidy(s) && text::strip_both(s, Strip::Quote) == s
}

/// Numbers are printable: reading strips nothing off them.
pub proof fn law_floats_are_printable(s: Seq<char>)
    requires
        figure::is_float(s),
    ensures
        printable(s),
{
    figure::law_floats_are_plain(s);
    assert(figure::figure_char(s[0]));
    assert(figure::figure_char(s[s.len() - 1]));
    assert forall|i: int| 0 <= i < s.len() implies #[trigger] s[i] != '\n' by {
        assert(figure::figure_char(s[i]));
    }
}

/// Reading a document gives back the results that were written: a name of one line is all it
/// takes. The fastest run must fit the record.
pub proof fn law_parse_undoes_to_json(results: Results, figures: Figures)
    requires
        one_line(results.name@),
        figures.numbers(),
        smallest(results.durations_ns@) <= u64::MAX,
    ensures
        record_in(document(results.entries(figures))) == Some(results.recorded(figures)),
{
    let entries = results.entries(figures);
    lemma_keys();
    law_floats_are_printable(figures.mean_ns@);
    law_floats_are_printable(figures.entity_steps_per_sec@);
    law_floats_are_printable(figures.checksum@);
    lemma_decimal_is_plain(results.entity_count as nat);
    lemma_decimal_is_plain(results.steps as nat);
    lemma_decimal_is_plain(results.warmups as nat);
    lemma_decimal_is_plain(results.repeats as nat);
    lemma_decimal_is_plain(smallest(results.durations_ns@) as nat);
    lemma_durations_one_line(results.durations_ns@, results.durations_ns@.len());
    assert(one_line("\""@ + results.name@ + "\""@)) by {
        reveal_strlit("\"");
    }
    assert(one_line("["@ + durations_text(
        results.durations_ns@,
        results.durations_ns@.len(),
    ) + "]"@)) by {
        reveal_strlit("[");
        reveal_strlit("]");
    }
    law_field_reads_what_was_written(entries, 1);
    law_field_reads_what_was_written(entries, 2);
    law_field_reads_what_was_written(entries, 6);
    law_field_reads_what_was_written(entries, 7);
    law_field_reads_what_was_written(entries, 8);
    law_field_reads_what_was_written(entries, 9);
    text::law_parse_undoes_decimal(results.entity_count as nat, u64::MAX as nat);
    text::law_parse_undoes_decimal(results.steps as nat, u64::MAX as nat);
    text::law_parse_undoes_decimal(smallest(results.durations_ns@) as nat, u64::MAX as nat);
}

/// The keys of a document are single lines without quotes, and no two are alike.
proof fn lemma_keys()
    ensures
        one_line("name"@) && quote_free("name"@),
        one_line("entity_count"@) && quote_free("entity_count"@),
        one_line("steps"@) && quote_free("steps"@),
        one_line("warmups"@) && quote_free("warmups"@),
        one_line("repeats"@) && quote_free("repeats"@),
        one_line("durations_ns"@) && quote_free("durations_ns"@),
        one_line("min_ns"@) && quote_free("min_ns"@),
        one_line("mean_ns"@) && quote_free("mean_ns"@),
        one_line("entity_steps_per_sec"@) && quote_free("entity_steps_per_sec"@),
        one_line("checksum"@) && quote_free("checksum"@),
        "name"@.len() == 4,
        "entity_count"@.len() == 12,
        "steps"@.len() == 5,
        "warmups"@.len() == 7,
        "repeats"@.len() == 7,
        "durations_ns"@.len() == 12,
        "min_ns"@.len() == 6,
        "mean_ns"@.len() == 7,
        "entity_steps_per_sec"@.len() == 20,
        "checksum"@.len() == 8,
        "entity_count"@[0] == 'e' && "durations_ns"@[0] == 'd',
        "warmups"@[0] == 'w' && "repeats"@[0] == 'r' && "mean_ns"@[0] == 'm',
{
    reveal_strlit("name");
    reveal_strlit("entity_count");
    reveal_strlit("steps");
    reveal_strlit("warmups");
    reveal_strlit("repeats");
    reveal_strlit("durations_ns");
    reveal_strlit("min_ns");
    reveal_strlit("mean_ns");
    reveal_strlit("entity_steps_per_sec");
    reveal_strlit("checksum");
}

/// A key is looked up line by line, and the first line that has it counts: a line without it in
/// front changes nothing, and no lines have no value.
pub proof fn law_lines_without_the_key_are_passed_over(
    line: Seq<char>,
    rest: Seq<char>,
    key: Seq<char>,
)
    requires
        one_line(line),
        line.len() > 0 ==> line.last() != '\r',
        !text::spelled_at(text::strip_both(line, Strip::White), "\""@ + key + "\":"@, 0),
    ensures
        value_of(seq![], key) is None,
        value_of(line, key) is None,
        value_of(line.push('\n') + rest, key) == value_of(rest, key),
{
    let wanted = needle(key);
    text::law_lines_end_at_line_feeds(line, rest);
    if text::starts_with(text::strip_both(line, Strip::White), wanted) {
        lemma_starts_with(text::strip_both(line, Strip::White), wanted);
    }
    assert((seq![line] + text::lines_of(rest)).skip(1) =~= text::lines_of(rest));
    assert(seq![line].skip(1) =~= seq![]);
    if line.len() == 0 {
        assert(line =~= seq![]);
    }
}

/// The value of a key stands behind its colon: white space around the line and around the value,
/// and commas behind it, do not show, and neither do the quotes around it, nor what follows on
/// other lines.
pub proof fn law_a_value_stands_behind_its_key(
    indent: Seq<char>,
    key: Seq<char>,
    front: Seq<char>,
    value: Seq<char>,
    back: Seq<char>,
    commas: Seq<char>,
    rest: Seq<char>,
)
    requires
        text::only(indent, Strip::White),
        text::only(front, Strip::White),
        text::only(back, Strip::White),
        text::only(commas, Strip::Comma),
        value.len() > 0,
        !text::white_space(value[0]),
        !text::white_space(value.last()),
        value.last() != ',',
        back.len() == 0 || commas.len() > 0,
        one_line(indent + ("\""@ + key + "\":"@) + front + value + back + commas),
    ensures
        value_of(
            (indent + ("\""@ + key + "\":"@) + front + value + back + commas).push('\n') + rest,
            key,
        ) == Some(text::strip_both(value, Strip::Quote)),
{
    let wanted = needle(key);
    let line = indent + wanted + front + value + back + commas;
    let after = front + value + back + commas;
    let none = Seq::<char>::empty();
    reveal_strlit("\"");
    reveal_strlit("\":");
    assert(line.last() == if commas.len() > 0 {
        commas.last()
    } else {
        value.last()
    });
    if commas.len() > 0 {
        assert(Strip::Comma.strips(commas[commas.len() - 1]));
        assert(commas.last() == ',');
    }
    assert(line.last() != '\r');
    text::law_lines_end_at_line_feeds(line, rest);
    let bare_line = wanted + after;
    assert(bare_line.last() == line.last());
    assert(bare_line[0] == '"');
    text::law_stripping_leaves_the_middle(indent, bare_line, none, Strip::White);
    assert(indent + bare_line + none =~= line);
    assert(bare_line.subrange(0, wanted.len() as int) =~= wanted);
    assert(bare_line.skip(wanted.len() as int) =~= after);
    let inner = value + back + commas;
    assert(inner[0] == value[0]);
    assert(inner.last() == line.last());
    text::law_stripping_leaves_the_middle(front, inner, none, Strip::White);
    assert(front + inner + none =~= after);
    let shorter = value + back;
    if back.len() > 0 {
        assert(Strip::White.strips(back[back.len() - 1]));
        assert(shorter.last() == back.last());
    } else {
        assert(shorter =~= value);
    }
    lemma_commas_go(shorter, commas);
    assert(shorter + commas =~= inner);
    text::law_stripping_leaves_the_middle(none, value, back, Strip::White);
    assert(none + value + back =~= shorter);
    let all = seq![line] + text::lines_of(rest);
    assert(all[0] == line);
}

proof fn lemma_commas_go(s: Seq<char>, commas: Seq<char>)
    requires
        text::only(commas, Strip::Comma),
        s.len() > 0,
        s.last() != ',',
    ensures
        text::strip_back(s + commas, Strip::Comma) == s,
    decreases commas.len(),
{
    if commas.len() == 0 {
        assert(s + commas =~= s);
    } else {
        assert((s + commas).last() == commas[commas.len() - 1]);
        assert((s + commas).drop_last() =~= s + commas.drop_last());
        lemma_commas_go(s, commas.drop_last());
    }
}

proof fn lemma_starts_with(s: Seq<char>, prefix: Seq<char>)
    requires
        text::starts_with(s, prefix),
    ensures
        text::spelled_at(s, prefix, 0),
{
    assert forall|k: int| 0 <= k < prefix.len() implies s[0 + k] == #[trigger] prefix[k] by {
        assert(s.subrange(0, prefix.len() as int)[k] == s[k]);
    }
}

/// All of a document can be read back: every count as it was, the durations one by one, and the
/// name, without quotes that it may begin or end with.
pub proof fn law_every_entry_is_read_back(results: Results, figures: Figures)
    requires
        one_line(results.name@),
        figures.numbers(),
    ensures
        ({
            let json = document(results.entries(figures));
            &&& value_of(json, "name"@) == Some(
                text::strip_both("\""@ + results.name@ + "\""@, Strip::Quote),
            )
            &&& value_of(json, "entity_count"@) == Some(text::decimal(results.entity_count as nat))
            &&& value_of(json, "steps"@) == Some(text::decimal(results.steps as nat))
            &&& value_of(json, "warmups"@) == Some(text::decimal(results.warmups as nat))
            &&& value_of(json, "repeats"@) == Some(text::decimal(results.repeats as nat))
            &&& value_of(json, "durations_ns"@) == Some(
                "["@ + durations_text(results.durations_ns@, results.durations_ns@.len()) + "]"@,
            )
            &&& value_of(json, "min_ns"@) == Some(
                text::decimal(smallest(results.durations_ns@) as nat),
            )
            &&& value_of(json, "mean_ns"@) == Some(figures.mean_ns@)
            &&& value_of(json, "entity_steps_per_sec"@) == Some(figures.entity_steps_per_sec@)
            &&& value_of(json, "checksum"@) == Some(figures.checksum@)
        }),
{
    let entries = results.entries(figures);
    let listed = durations_text(results.durations_ns@, results.durations_ns@.len());
    lemma_keys();
    law_floats_are_printable(figures.mean_ns@);
    law_floats_are_printable(figures.entity_steps_per_sec@);
    law_floats_are_printable(figures.checksum@);
    lemma_decimal_is_plain(results.entity_count as nat);
    lemma_decimal_is_plain(results.steps as nat);
    lemma_decimal_is_plain(results.warmups as nat);
    lemma_decimal_is_plain(results.repeats as nat);
    lemma_decimal_is_plain(smallest(results.durations_ns@) as nat);
    lemma_durations_one_line(results.durations_ns@, results.durations_ns@.len());
    assert(one_line("\""@ + results.name@ + "\""@)) by {
        reveal_strlit("\"");
    }
    assert(tidy("\""@ + results.name@ + "\""@)) by {
        reveal_strlit("\"");
        let name = "\""@ + results.name@ + "\""@;
        assert(name[0] == '"' && name.last() == '"');
    }
    let list = "["@ + listed + "]"@;
    assert(one_line(list) && tidy(list) && text::strip_both(list, Strip::Quote) == list) by {
        reveal_strlit("[");
        reveal_strlit("]");
        assert(list[0] == '[' && list.last() == ']');
    }
    law_field_reads_what_was_written(entries, 0);
    law_field_reads_what_was_written(entries, 1);
    law_field_reads_what_was_written(entries, 2);
    law_field_reads_what_was_written(entries, 3);
    law_field_reads_what_was_written(entries, 4);
    law_field_reads_what_was_written(entries, 5);
    law_field_reads_what_was_written(entries, 6);
    law_field_reads_what_was_written(entries, 7);
    law_field_reads_what_was_written(entries, 8);
    law_field_reads_what_was_written(entries, 9);
}

/// Every duration is listed, in order: another run adds its duration behind a comma, and changes
/// nothing before it.
pub proof fn law_every_duration_is_listed(durations: Seq<u128>, d: u128)
    ensures
        durations_text(seq![], 0) == Seq::<char>::empty(),
        durations_text(seq![d], 1) == text::decimal(d as nat),
        durations.len() > 0 ==> durations_text(durations.push(d), durations.len() + 1)
            == durations_text(durations, durations.len()) + ", "@ + text::decimal(d as nat),
{
    assert(durations_text(seq![d], 0) =~= seq![]);
    assert(durations_text(seq![d], 1) =~= text::decimal(d as nat));
    lemma_listed_before(durations, d, durations.len());
}

proof fn lemma_listed_before(durations: Seq<u128>, d: u128, n: nat)
    requires
        n <= durations.len(),
    ensures
        durations_text(durations.push(d), n) == durations_text(durations, n),
    decreases n,
{
    if n > 0 {
        lemma_listed_before(durations, d, (n - 1) as nat);
    }
}

/// A document is a record just when it has all that is tabulated: the counts are numbers that fit,
/// the figures are floating-point numbers, and there is a checksum.
pub proof fn law_records_are_complete(json: Seq<char>)
    ensures
        record_in(json) is Some <==> {
            &&& value_of(json, "entity_count"@) matches Some(a) && text::parsed(
                a,
                0xFFFF_FFFF_FFFF_FFFF,
            ) is Some
            &&& value_of(json, "steps"@) matches Some(b) && text::parsed(
                b,
                0xFFFF_FFFF_FFFF_FFFF,
            ) is Some
            &&& value_of(json, "min_ns"@) matches Some(c) && text::parsed(
                c,
                0xFFFF_FFFF_FFFF_FFFF,
            ) is Some
            &&& value_of(json, "mean_ns"@) matches Some(d) && figure::is_float(d)
            &&& value_of(json, "entity_steps_per_sec"@) matches Some(e) && figure::is_float(e)
            &&& value_of(json, "checksum"@) is Some
        },
{
}

} // verus!
