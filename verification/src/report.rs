//! The report: the generated regions of a README.

use crate::results;
use crate::results::{Record, RecordModel};
use crate::text;
use crate::text::{after_prefix, find_from, lines, thousands, without, Strip};
use vstd::prelude::*;
use vstd::string::*;

verus! {

/// One benchmark implementation.
pub struct Impl {
    /// Name of its results.
    pub name: &'static str,
    /// Package, and binary, to run.
    pub package: &'static str,
    /// Description for the table.
    pub blurb: &'static str,
    /// Guest package to build before it runs, if it has one.
    pub guest: Option<&'static str>,
}

/// The implementations to build, run and tabulate, in display order.
pub fn implementations() -> (r: Vec<Impl>)
    ensures
        r@ == seq![
            Impl {
                name: "baseline",
                package: "baseline",
                blurb: "Array-of-structs native reference",
                guest: None,
            },
            Impl {
                name: "naive-wasm",
                package: "naive-wasm",
                blurb: "Naive Wasm Component (host call per entity per step)",
                guest: Some("naive-wasm-guest"),
            },
            Impl {
                name: "stream-wasm",
                package: "stream-wasm",
                blurb: "Streaming Wasm Component (one async stream<entity> call per step)",
                guest: Some("stream-wasm-guest"),
            },
            Impl {
                name: "bulk-wasm",
                package: "bulk-wasm",
                blurb: "Bulk Wasm Component (one list<entity> call per step)",
                guest: Some("bulk-wasm-guest"),
            },
        ],
{
    let mut r: Vec<Impl> = Vec::new();
    r.push(
        Impl {
            name: "baseline",
            package: "baseline",
            blurb: "Array-of-structs native reference",
            guest: None,
        },
    );
    r.push(
        Impl {
            name: "naive-wasm",
            package: "naive-wasm",
            blurb: "Naive Wasm Component (host call per entity per step)",
            guest: Some("naive-wasm-guest"),
        },
    );
    r.push(
        Impl {
            name: "stream-wasm",
            package: "stream-wasm",
            blurb: "Streaming Wasm Component (one async stream<entity> call per step)",
            guest: Some("stream-wasm-guest"),
        },
    );
    r.push(
        Impl {
            name: "bulk-wasm",
            package: "bulk-wasm",
            blurb: "Bulk Wasm Component (one list<entity> call per step)",
            guest: Some("bulk-wasm-guest"),
        },
    );
    r
}

/// The guest packages of some implementations, in order.
pub open spec fn guests_of(impls: Seq<Impl>) -> Seq<&'static str>
    decreases impls.len(),
{
    if impls.len() == 0 {
        seq![]
    } else {
        match impls.last().guest {
            Some(guest) => guests_of(impls.drop_last()).push(guest),
            None => guests_of(impls.drop_last()),
        }
    }
}

/// The guest packages to build.
pub fn guest_packages(impls: &Vec<Impl>) -> (r: Vec<&'static str>)
    ensures
        r@ == guests_of(impls@),
{
    let mut r: Vec<&'static str> = Vec::new();
    let mut i: usize = 0;
    assert(impls@.take(0) =~= seq![]);
    while i < impls.len()
        invariant
            i <= impls@.len(),
            r@ == guests_of(impls@.take(i as int)),
        decreases impls@.len() - i,
    {
        assert(impls@.take(i + 1).drop_last() =~= impls@.take(i as int));
        match impls[i].guest {
            Some(guest) => r.push(guest),
            None => {},
        }
        i += 1;
    }
    assert(impls@.take(i as int) =~= impls@);
    r
}

/// Where the name of the processor is found.
#[derive(Clone, Copy, Debug, PartialEq, Eq, Structural)]
pub enum CpuSource {
    /// The program `sysctl` prints it.
    Sysctl,
    /// The file `/proc/cpuinfo` holds it.
    ProcCpuinfo,
    /// Nowhere.
    Unknown,
}

/// Where an operating system keeps the name of the processor.
pub fn cpu_source(os: &str) -> (r: CpuSource)
    ensures
        r == if os@ == "macos"@ {
            CpuSource::Sysctl
        } else if os@ == "linux"@ {
            CpuSource::ProcCpuinfo
        } else {
            CpuSource::Unknown
        },
{
    let os = os.to_owned();
    if os == "macos".to_owned() {
        CpuSource::Sysctl
    } else if os == "linux".to_owned() {
        CpuSource::ProcCpuinfo
    } else {
        CpuSource::Unknown
    }
}

// ---------------------------------------------------------------------------------------
// Regions.
// ---------------------------------------------------------------------------------------

/// The marker that a text is missing.
#[derive(Clone, Copy, Debug, PartialEq, Eq, Structural)]
pub enum Missing {
    Start,
    End,
}

/// `s` with the text between the first `start` and the `end` that follows it replaced by
/// `inner` on lines of its own.
pub open spec fn replaced(
    s: Seq<char>,
    start: Seq<char>,
    end: Seq<char>,
    inner: Seq<char>,
) -> Result<Seq<char>, Missing> {
    match text::first_at(s, start, 0) {
        None => Err(Missing::Start),
        Some(at) => {
            let after = at + start.len();
            match text::first_at(s, end, after) {
                None => Err(Missing::End),
                Some(e) => Ok(
                    s.take(after as int) + seq!['\n'] + inner + seq!['\n'] + s.skip(e as int),
                ),
            }
        },
    }
}

/// Replace the text between two markers, which stay.
pub fn replace_region(s: &str, start: &str, end: &str, inner: &str) -> (r: Result<
    String,
    Missing,
>)
    ensures
        match r {
            Ok(out) => replaced(s@, start@, end@, inner@) == Ok::<Seq<char>, Missing>(out@),
            Err(e) => replaced(s@, start@, end@, inner@) == Err::<Seq<char>, Missing>(e),
        },
{
    let len = s.unicode_len();
    let at = match find_from(s, start, 0) {
        Some(at) => at,
        None => {
            return Err(Missing::Start);
        },
    };
    proof {
        text::lemma_first_at(s@, start@, 0);
    }
    let after = at + start.unicode_len();
    let e = match find_from(s, end, after) {
        Some(e) => e,
        None => {
            return Err(Missing::End);
        },
    };
    proof {
        text::lemma_first_at(s@, end@, after as nat);
        reveal_strlit("\n");
        assert("\n"@ =~= seq!['\n']);
    }
    let mut out = s.substring_char(0, after).to_owned();
    out.append("\n");
    out.append(inner);
    out.append("\n");
    out.append(s.substring_char(e, len));
    assert(s@.subrange(0, after as int) =~= s@.take(after as int));
    assert(s@.subrange(e as int, len as int) =~= s@.skip(e as int));
    Ok(out)
}

/// Where the description of the machine starts.
pub const ENV_START: &'static str = "<!-- BENCH_ENV:START -->";

/// Where it ends.
pub const ENV_END: &'static str = "<!-- BENCH_ENV:END -->";

/// Where the results table starts.
pub const TABLE_START: &'static str = "<!-- BENCH_TABLE:START -->";

/// Where it ends.
pub const TABLE_END: &'static str = "<!-- BENCH_TABLE:END -->";

/// A README with both of its generated regions replaced, or the marker that is missing.
pub open spec fn regenerated(
    readme: Seq<char>,
    env_block: Seq<char>,
    table: Seq<char>,
) -> Result<Seq<char>, Seq<char>> {
    match replaced(readme, ENV_START@, ENV_END@, env_block) {
        Err(Missing::Start) => Err(ENV_START@),
        Err(Missing::End) => Err(ENV_END@),
        Ok(s) => match replaced(s, TABLE_START@, TABLE_END@, table) {
            Err(Missing::Start) => Err(TABLE_START@),
            Err(Missing::End) => Err(TABLE_END@),
            Ok(t) => Ok(t),
        },
    }
}

/// Regenerate a README: replace the description of the machine, and then the results table. A
/// marker that is missing is named.
pub fn regenerate(readme: &str, env_block: &str, table: &str) -> (r: Result<String, &'static str>)
    ensures
        match r {
            Ok(out) => regenerated(readme@, env_block@, table@) == Ok::<Seq<char>, Seq<char>>(out@),
            Err(marker) => regenerated(readme@, env_block@, table@) == Err::<
                Seq<char>,
                Seq<char>,
            >(marker@),
        },
{
    let described = match replace_region(readme, ENV_START, ENV_END, env_block) {
        Ok(s) => s,
        Err(Missing::Start) => {
            return Err(ENV_START);
        },
        Err(Missing::End) => {
            return Err(ENV_END);
        },
    };
    match replace_region(described.as_str(), TABLE_START, TABLE_END, table) {
        Ok(s) => Ok(s),
        Err(Missing::Start) => Err(TABLE_START),
        Err(Missing::End) => Err(TABLE_END),
    }
}

/// The end marker does not show up early: in the new text it is first found where it belongs.
pub open spec fn unobtrusive(inner: Seq<char>, end: Seq<char>) -> bool {
    forall|j: nat|
        j < inner.len() + 2 ==> !#[trigger] text::occurs_at(
            seq!['\n'] + inner + seq!['\n'] + end,
            end,
            j,
        )
}

/// A region can be generated over and over: replacing it again leaves nothing of what was there
/// before, as long as that did not hold the end marker.
pub proof fn law_regions_are_overwritten(
    s: Seq<char>,
    start: Seq<char>,
    end: Seq<char>,
    first: Seq<char>,
    second: Seq<char>,
)
    requires
        replaced(s, start, end, first) is Ok,
        unobtrusive(first, end),
    ensures
        replaced(replaced(s, start, end, first)->Ok_0, start, end, second) == replaced(
            s,
            start,
            end,
            second,
        ),
{
    let at = text::first_at(s, start, 0)->Some_0;
    let after = at + start.len();
    let e = text::first_at(s, end, after)->Some_0;
    text::lemma_first_at(s, start, 0);
    text::lemma_first_at(s, end, after);
    let head = s.take(after as int);
    let tail = s.skip(e as int);
    let middle = seq!['\n'] + first + seq!['\n'];
    let t = head + seq!['\n'] + first + seq!['\n'] + tail;
    assert(t =~= head + middle + tail);
    // The start marker is where it was.
    assert forall|j: nat| j <= at implies #[trigger] text::occurs_at(t, start, j)
        == text::occurs_at(s, start, j) by {
        assert(t.subrange(j as int, j + start.len() as int) =~= s.subrange(
            j as int,
            j + start.len() as int,
        ));
    }
    lemma_first_is(t, start, 0, at);
    // The end marker is right behind the new text.
    let place = (after + middle.len()) as nat;
    assert(tail.subrange(0, end.len() as int) =~= end) by {
        assert(s.subrange(e as int, e + end.len() as int) == end);
        assert(tail.subrange(0, end.len() as int) =~= s.subrange(
            e as int,
            e + end.len() as int,
        ));
    }
    assert(t.subrange(place as int, place + end.len() as int) =~= tail.subrange(
        0,
        end.len() as int,
    ));
    let shown = seq!['\n'] + first + seq!['\n'] + end;
    assert forall|j: nat| after <= j < place implies !#[trigger] text::occurs_at(t, end, j) by {
        let k = (j - after) as nat;
        assert(!text::occurs_at(shown, end, k));
        if text::occurs_at(t, end, j) {
            assert(shown.subrange(k as int, k + end.len() as int) =~= t.subrange(
                j as int,
                j + end.len() as int,
            )) by {
                assert forall|i: int| 0 <= i < end.len() implies shown[k + i] == #[trigger] t[j
                    + i] by {
                    if k + i >= middle.len() {
                        assert(t[j + i] == tail[k + i - middle.len()]);
                        assert(tail.subrange(0, end.len() as int)[k + i - middle.len()]
                            == end[k + i - middle.len()]);
                    }
                }
            }
        }
    }
    lemma_first_is(t, end, after, place);
    assert(t.take(after as int) =~= head);
    assert(t.skip(place as int) =~= tail);
}

/// An occurrence with none before it is the first.
proof fn lemma_first_is(s: Seq<char>, wanted: Seq<char>, from: nat, at: nat)
    requires
        from <= at,
        text::occurs_at(s, wanted, at),
        forall|j: nat| from <= j < at ==> !#[trigger] text::occurs_at(s, wanted, j),
    ensures
        text::first_at(s, wanted, from) == Some(at),
{
    text::lemma_first_at(s, wanted, from);
}

// ---------------------------------------------------------------------------------------
// The environment.
// ---------------------------------------------------------------------------------------

/// A text, or what stands for it where there is none.
pub open spec fn or_else(given: Option<Seq<char>>, otherwise: Seq<char>) -> Seq<char> {
    match given {
        Some(s) => s,
        None => otherwise,
    }
}

/// The text of an optional string.
pub open spec fn text_of(given: Option<&str>) -> Option<Seq<char>> {
    match given {
        Some(s) => Some(s@),
        None => None,
    }
}

fn given_or<'a>(given: Option<&'a str>, otherwise: &'a str) -> (r: &'a str)
    ensures
        r@ == or_else(text_of(given), otherwise@),
{
    match given {
        Some(s) => s,
        None => otherwise,
    }
}

/// What is known of the machine that a benchmark runs on.
pub struct Machine<'a> {
    pub cpu: Option<&'a str>,
    pub os: &'a str,
    pub arch: &'a str,
    pub rustc: Option<&'a str>,
    pub warmups: Option<&'a str>,
    pub repeats: Option<&'a str>,
}

/// Describe a machine as a list.
pub fn environment_block(m: &Machine<'_>) -> (r: String)
    ensures
        r@ == "_Measured on:_\n\n- **CPU:** "@ + or_else(text_of(m.cpu), "unknown"@)
            + "\n- **OS / arch:** "@ + m.os@ + " / "@ + m.arch@ + "\n- **Toolchain:** "@ + or_else(
            text_of(m.rustc),
            "unknown"@,
        )
            + "\n- **Build profile:** release (`opt-level=3`, `lto=true`, `codegen-units=1`)\n- **Warmup / timed repeats:** "@
            + or_else(text_of(m.warmups), "2"@) + " / "@ + or_else(text_of(m.repeats), "5"@),
{
    let mut out = "_Measured on:_\n\n- **CPU:** ".to_owned();
    out.append(given_or(m.cpu, "unknown"));
    out.append("\n- **OS / arch:** ");
    out.append(m.os);
    out.append(" / ");
    out.append(m.arch);
    out.append("\n- **Toolchain:** ");
    out.append(given_or(m.rustc, "unknown"));
    out.append(
        "\n- **Build profile:** release (`opt-level=3`, `lto=true`, `codegen-units=1`)\n- **Warmup / timed repeats:** ",
    );
    out.append(given_or(m.warmups, "2"));
    out.append(" / ");
    out.append(given_or(m.repeats, "5"));
    out
}

/// The first line of what a program printed, without white space around it; `None` if that is
/// empty.
pub open spec fn first_line_of(s: Seq<char>) -> Option<Seq<char>> {
    if text::lines_of(s).len() == 0 {
        None
    } else {
        let line = text::strip_both(text::lines_of(s)[0], Strip::White);
        if line.len() == 0 {
            None
        } else {
            Some(line)
        }
    }
}

/// The first line of what a program printed.
pub fn first_line(printed: &str) -> (r: Option<&str>)
    ensures
        text_of(r) == first_line_of(printed@),
{
    let all = lines(printed);
    let ghost seen = text::texts(all@);
    assert(seen.len() == all@.len());
    if all.len() == 0 {
        return None;
    }
    assert(seen[0] == all@[0]@);
    let line = without(all[0], Strip::White);
    if line.unicode_len() == 0 {
        None
    } else {
        Some(line)
    }
}

/// The second of the pieces that colons cut `s` into, if there are two.
pub open spec fn second_piece(s: Seq<char>) -> Option<Seq<char>> {
    match text::first_at(s, seq![':'], 0) {
        None => None,
        Some(a) => match text::first_at(s, seq![':'], a + 1) {
            None => Some(s.skip(a + 1int)),
            Some(b) => Some(s.subrange(a + 1int, b as int)),
        },
    }
}

/// The model name on one line of processor information.
pub open spec fn model_on(line: Seq<char>) -> Option<Seq<char>> {
    if text::starts_with(line, "model name"@) {
        match second_piece(line.skip("model name"@.len() as int)) {
            Some(piece) => Some(text::strip_both(piece, Strip::White)),
            None => None,
        }
    } else {
        None
    }
}

/// The first model name on some lines.
pub open spec fn model_in(lines: Seq<Seq<char>>) -> Option<Seq<char>>
    decreases lines.len(),
{
    if lines.len() == 0 {
        None
    } else {
        match model_on(lines[0]) {
            Some(model) => Some(model),
            None => model_in(lines.skip(1)),
        }
    }
}

fn second<'a>(s: &'a str) -> (r: Option<&'a str>)
    ensures
        text_of(r) == second_piece(s@),
{
    let len = s.unicode_len();
    proof {
        reveal_strlit(":");
        assert(":"@ =~= seq![':']);
    }
    match find_from(s, ":", 0) {
        None => None,
        Some(a) => {
            proof {
                text::lemma_first_at(s@, seq![':'], 0);
                text::lemma_first_at(s@, seq![':'], (a + 1) as nat);
            }
            match find_from(s, ":", a + 1) {
                None => {
                    let piece = s.substring_char(a + 1, len);
                    assert(piece@ =~= s@.skip(a + 1));
                    Some(piece)
                },
                Some(b) => Some(s.substring_char(a + 1, b)),
            }
        },
    }
}

/// The processor's model name, from the text that Linux keeps in `/proc/cpuinfo`.
pub fn cpu_model(cpuinfo: &str) -> (r: Option<&str>)
    ensures
        text_of(r) == model_in(text::lines_of(cpuinfo@)),
{
    let all = lines(cpuinfo);
    let ghost seen = text::texts(all@);
    let mut i: usize = 0;
    assert(seen.skip(0) =~= seen);
    while i < all.len()
        invariant
            i <= all@.len(),
            seen == text::texts(all@),
            model_in(text::lines_of(cpuinfo@)) == model_in(seen.skip(i as int)),
        decreases all@.len() - i,
    {
        assert(seen.skip(i as int)[0] == all@[i as int]@);
        match after_prefix(all[i], "model name") {
            Some(rest) => match second(rest) {
                Some(piece) => {
                    return Some(without(piece, Strip::White));
                },
                None => {},
            },
            None => {},
        }
        assert(seen.skip(i as int).skip(1) =~= seen.skip(i + 1));
        i += 1;
    }
    None
}

// ---------------------------------------------------------------------------------------
// The table.
// ---------------------------------------------------------------------------------------

/// The figures of a record that are floating-point numbers, as the table shows them.
pub struct Printed {
    /// The fastest run, in milliseconds.
    pub fastest_ms: String,
    /// The mean of all runs, in milliseconds.
    pub mean_ms: String,
    /// Millions of entity-steps per second.
    pub throughput: String,
}

/// The head of the table.
pub open spec fn table_head() -> Seq<char> {
    "| Implementation | Entities | Steps | Fastest | Mean | Throughput | Checksum |\n"@
        + "| --- | ---: | ---: | ---: | ---: | ---: | ---: |\n"@
}

/// A number with separators.
pub open spec fn separated(n: nat) -> Seq<char> {
    text::grouped(text::decimal(n), text::decimal(n).len())
}

/// One row of the table: an implementation, and its results as far as there are any.
pub open spec fn row_text(imp: Impl, figures: Option<(RecordModel, Printed)>) -> Seq<char> {
    "| "@ + imp.blurb@ + " (`"@ + imp.name@ + "`)"@ + match figures {
        Some((record, printed)) => " | "@ + separated(record.entity_count) + " | "@ + separated(
            record.steps,
        ) + " | "@ + printed.fastest_ms@ + " ms | "@ + printed.mean_ms@ + " ms | "@
            + printed.throughput@ + " M/s | "@ + record.checksum + " |\n"@,
        None => " | — | — | — | — | — | _no results_ |\n"@,
    }
}

/// The table with its first `n` rows.
pub open spec fn table_text(
    impls: Seq<Impl>,
    figures: Seq<Option<(RecordModel, Printed)>>,
    n: nat,
) -> Seq<char>
    decreases n,
{
    if n == 0 || n > impls.len() {
        table_head()
    } else {
        table_text(impls, figures, (n - 1) as nat) + row_text(impls[n - 1], figures[n - 1])
    }
}

/// The table depends on the figures of its rows only.
proof fn lemma_table_rows(
    impls: Seq<Impl>,
    a: Seq<Option<(RecordModel, Printed)>>,
    b: Seq<Option<(RecordModel, Printed)>>,
    n: nat,
)
    requires
        forall|i: int| 0 <= i < n ==> a[i] == b[i],
    ensures
        table_text(impls, a, n) == table_text(impls, b, n),
    decreases n,
{
    if n > 0 && n <= impls.len() {
        lemma_table_rows(impls, a, b, (n - 1) as nat);
    }
}

/// The record in a document, where there is a document and it holds one.
pub open spec fn document_record(document: Option<String>) -> Option<RecordModel> {
    match document {
        Some(json) => results::record_in(json@),
        None => None,
    }
}

/// `figures` is what a row shows of its document: nothing where the document holds no record, and
/// otherwise the record, with what `print` may print of it.
pub open spec fn shows<F: Fn(&Record) -> Printed>(
    print: F,
    document: Option<String>,
    figures: Option<(RecordModel, Printed)>,
) -> bool {
    match document_record(document) {
        None => figures is None,
        Some(found) => exists|r: Record, printed: Printed|
            {
                &&& #[trigger] print.ensures((&r,), printed)
                &&& r@ == found
                &&& figures == Some((found, printed))
            },
    }
}

/// What a row shows of a record.
spec fn row_figures(figures: Option<(Record, Printed)>) -> Option<(RecordModel, Printed)> {
    match figures {
        Some((record, printed)) => Some((record@, printed)),
        None => None,
    }
}

fn push_row(out: &mut String, imp: &Impl, figures: &Option<(Record, Printed)>)
    ensures
        final(out)@ == old(out)@ + row_text(*imp, row_figures(*figures)),
{
    out.append("| ");
    out.append(imp.blurb);
    out.append(" (`");
    out.append(imp.name);
    out.append("`)");
    match figures {
        Some((record, printed)) => {
            out.append(" | ");
            out.append(thousands(record.entity_count).as_str());
            out.append(" | ");
            out.append(thousands(record.steps).as_str());
            out.append(" | ");
            out.append(printed.fastest_ms.as_str());
            out.append(" ms | ");
            out.append(printed.mean_ms.as_str());
            out.append(" ms | ");
            out.append(printed.throughput.as_str());
            out.append(" M/s | ");
            out.append(record.checksum.as_str());
            out.append(" |\n");
        },
        None => {
            out.append(" | — | — | — | — | — | _no results_ |\n");
        },
    }
    assert(out@ =~= old(out)@ + row_text(*imp, row_figures(*figures)));
}

/// The results table: one row per implementation, with the figures of its results document.
/// Where a document is missing, or is no record, the row says so.
pub fn results_table<F: Fn(&Record) -> Printed>(
    impls: &Vec<Impl>,
    documents: &Vec<Option<String>>,
    print: F,
) -> (r: String)
    requires
        documents@.len() == impls@.len(),
        forall|record: Record| #[trigger] print.requires((&record,)),
    ensures
        exists|figures: Seq<Option<(RecordModel, Printed)>>|
            {
                &&& r@ == #[trigger] table_text(impls@, figures, impls@.len())
                &&& figures.len() == impls@.len()
                &&& forall|i: int|
                    0 <= i < impls@.len() ==> shows(print, documents@[i], #[trigger] figures[i])
            },
{
    let mut out =
        "| Implementation | Entities | Steps | Fastest | Mean | Throughput | Checksum |\n".to_owned();
    out.append("| --- | ---: | ---: | ---: | ---: | ---: | ---: |\n");
    let ghost mut figures: Seq<Option<(RecordModel, Printed)>> = Seq::empty();
    let mut i: usize = 0;
    while i < impls.len()
        invariant
            i <= impls@.len(),
            documents@.len() == impls@.len(),
            forall|record: Record| #[trigger] print.requires((&record,)),
            figures.len() == i,
            out@ == table_text(impls@, figures, i as nat),
            forall|k: int| 0 <= k < i ==> shows(print, documents@[k], #[trigger] figures[k]),
        decreases impls@.len() - i,
    {
        let record = match &documents[i] {
            Some(json) => Record::parse(json.as_str()),
            None => None,
        };
        let shown = match record {
            Some(record) => {
                assert(print.requires((&record,)));
                let printed = print(&record);
                assert(print.ensures((&record,), printed));
                Some((record, printed))
            },
            None => None,
        };
        proof {
            let now = row_figures(shown);
            if shown is Some {
                let (record, printed) = (shown->Some_0.0, shown->Some_0.1);
                assert(document_record(documents@[i as int]) == Some(record@));
                assert(print.ensures((&record,), printed));
                assert(now == Some((record@, printed)));
            }
            assert(shows(print, documents@[i as int], now));
            lemma_table_rows(impls@, figures, figures.push(now), i as nat);
            figures = figures.push(now);
        }
        push_row(&mut out, &impls[i], &shown);
        i += 1;
    }
    out
}

/// Was `--readme-only` given?
pub fn readme_only(args: &Vec<String>) -> (r: bool)
    ensures
        r == exists|i: int| 0 <= i < args@.len() && #[trigger] args@[i]@ == "--readme-only"@,
{
    let wanted = "--readme-only".to_owned();
    let mut i: usize = 0;
    while i < args.len()
        invariant
            i <= args@.len(),
            wanted@ == "--readme-only"@,
            forall|k: int| 0 <= k < i ==> #[trigger] args@[k]@ != "--readme-only"@,
        decreases args@.len() - i,
    {
        if args[i] == wanted {
            assert(args@[i as int]@ == "--readme-only"@);
            return true;
        }
        i += 1;
    }
    false
}

// ---------------------------------------------------------------------------------------
// What holds of the report.
// ---------------------------------------------------------------------------------------

/// Every guest is built, in order: an implementation brings the guest that it has, and some
/// implementations after others bring the guests of the ones after those of the others.
pub proof fn law_guests_are_listed_in_order(impls: Seq<Impl>, more: Seq<Impl>, one: Impl)
    ensures
        guests_of(seq![]) == Seq::<&'static str>::empty(),
        one.guest is None ==> guests_of(seq![one]) == Seq::<&'static str>::empty(),
        one.guest matches Some(guest) ==> guests_of(seq![one]) == seq![guest],
        guests_of(impls + more) == guests_of(impls) + guests_of(more),
    decreases more.len(),
{
    assert(seq![one].drop_last() =~= seq![]);
    assert(guests_of(seq![]) =~= Seq::<&'static str>::empty());
    assert(guests_of(seq![one]) =~= match one.guest {
        Some(guest) => seq![guest],
        None => Seq::<&'static str>::empty(),
    });
    let all = impls + more;
    if more.len() == 0 {
        assert(all =~= impls);
    } else {
        law_guests_are_listed_in_order(impls, more.drop_last(), one);
        assert(all.drop_last() =~= impls + more.drop_last());
        assert(all.last() == more.last());
    }
    assert(guests_of(all) =~= guests_of(impls) + guests_of(more));
}

/// A region is replaced, and nothing else: where the start marker is first found behind `head`,
/// and the end marker first behind `old`, the markers and all that is outside of them stay, and
/// the new text takes the place of `old`, on lines of its own.
pub proof fn law_only_the_region_is_replaced(
    head: Seq<char>,
    start: Seq<char>,
    old_text: Seq<char>,
    end: Seq<char>,
    tail: Seq<char>,
    inner: Seq<char>,
)
    requires
        forall|j: int|
            0 <= j < head.len() ==> !#[trigger] text::spelled_at(
                head + start + old_text + end + tail,
                start,
                j,
            ),
        forall|j: int|
            head.len() + start.len() <= j < head.len() + start.len() + old_text.len()
                ==> !#[trigger] text::spelled_at(head + start + old_text + end + tail, end, j),
    ensures
        replaced(head + start + old_text + end + tail, start, end, inner) == Ok::<
            Seq<char>,
            Missing,
        >(head + start + seq!['\n'] + inner + seq!['\n'] + end + tail),
{
    let s = head + start + old_text + end + tail;
    let at = head.len();
    let after = at + start.len();
    let e = after + old_text.len();
    text::law_the_first_place_is_found(s, start, 0, at);
    text::law_the_first_place_is_found(s, end, after, e);
    assert(text::spelled_at(s, start, at as int));
    assert(text::spelled_at(s, end, e as int));
    assert(s.take(after as int) =~= head + start);
    assert(s.skip(e as int) =~= end + tail);
    assert(s.take(after as int) + seq!['\n'] + inner + seq!['\n'] + s.skip(e as int) =~= head
        + start + seq!['\n'] + inner + seq!['\n'] + end + tail);
}

/// A region without its markers is not replaced, and the first marker that is missing is named:
/// the start marker where it stands nowhere, the end marker where it does not stand behind the
/// start marker.
pub proof fn law_missing_markers_are_named(
    s: Seq<char>,
    start: Seq<char>,
    end: Seq<char>,
    inner: Seq<char>,
)
    ensures
        replaced(s, start, end, inner) == Err::<Seq<char>, Missing>(Missing::Start)
            <==> forall|j: int| 0 <= j ==> !#[trigger] text::spelled_at(s, start, j),
        forall|at: int|
            text::spelled_at(s, start, at) && (forall|j: int|
                0 <= j < at ==> !#[trigger] text::spelled_at(s, start, j)) ==> (replaced(
                s,
                start,
                end,
                inner,
            ) == Err::<Seq<char>, Missing>(Missing::End) <==> forall|j: int|
                at + start.len() <= j ==> !#[trigger] text::spelled_at(s, end, j)),
{
    text::law_the_first_place_is_found(s, start, 0, 0);
    assert forall|at: int|
        #![trigger text::spelled_at(s, start, at)]
        text::spelled_at(s, start, at) && (forall|j: int|
            0 <= j < at ==> !#[trigger] text::spelled_at(s, start, j)) implies (replaced(
        s,
        start,
        end,
        inner,
    ) == Err::<Seq<char>, Missing>(Missing::End) <==> forall|j: int|
        at + start.len() <= j ==> !#[trigger] text::spelled_at(s, end, j)) by {
        text::law_the_first_place_is_found(s, start, 0, at as nat);
        text::law_the_first_place_is_found(s, end, (at + start.len()) as nat, 0);
    }
}

/// A README is regenerated by its two regions: the description of the machine first, then the
/// table, each between markers of its own. The first marker that is missing is named.
pub proof fn law_both_regions_are_regenerated(
    readme: Seq<char>,
    env_block: Seq<char>,
    table: Seq<char>,
)
    ensures
        ({
            let described = replaced(
                readme,
                "<!-- BENCH_ENV:START -->"@,
                "<!-- BENCH_ENV:END -->"@,
                env_block,
            );
            let tabulated = replaced(
                described->Ok_0,
                "<!-- BENCH_TABLE:START -->"@,
                "<!-- BENCH_TABLE:END -->"@,
                table,
            );
            &&& regenerated(readme, env_block, table) is Ok <==> described is Ok && tabulated is Ok
            &&& regenerated(readme, env_block, table) is Ok ==> regenerated(
                readme,
                env_block,
                table,
            )->Ok_0 == tabulated->Ok_0
            &&& described is Err ==> regenerated(readme, env_block, table) == Err::<
                Seq<char>,
                Seq<char>,
            >(
                if described->Err_0 is Start {
                    "<!-- BENCH_ENV:START -->"@
                } else {
                    "<!-- BENCH_ENV:END -->"@
                },
            )
            &&& described is Ok && tabulated is Err ==> regenerated(readme, env_block, table)
                == Err::<Seq<char>, Seq<char>>(
                if tabulated->Err_0 is Start {
                    "<!-- BENCH_TABLE:START -->"@
                } else {
                    "<!-- BENCH_TABLE:END -->"@
                },
            )
        }),
{
}

/// The first line is found whatever follows it, and without what is around it: white space in
/// front of a text and behind it does not show, and where there is nothing else on the line,
/// nothing is found.
pub proof fn law_the_first_line_is_trimmed(
    front: Seq<char>,
    line: Seq<char>,
    back: Seq<char>,
    rest: Seq<char>,
)
    requires
        text::only(front, Strip::White),
        text::only(back, Strip::White),
        line.len() > 0 ==> !text::white_space(line[0]) && !text::white_space(line.last()),
        results::one_line(front + line + back),
        (front + line + back).len() > 0 ==> (front + line + back).last() != '\r',
    ensures
        first_line_of(seq![]) is None,
        first_line_of((front + line + back).push('\n') + rest) == (if line.len() > 0 {
            Some(line)
        } else {
            None
        }),
        first_line_of(front + line + back) == (if line.len() > 0 {
            Some(line)
        } else {
            None
        }),
{
    let all = front + line + back;
    text::law_lines_end_at_line_feeds(all, rest);
    text::law_stripping_leaves_the_middle(front, line, back, Strip::White);
    assert((seq![all] + text::lines_of(rest))[0] == all);
}

/// The first line that names a model is the one that counts: lines before it that name none are
/// passed over, and lines behind it are not read.
pub proof fn law_the_first_model_counts(lines: Seq<Seq<char>>, more: Seq<Seq<char>>, line: Seq<char>)
    ensures
        model_in(seq![]) is None,
        model_in(seq![line]) == model_on(line),
        model_in(lines) is Some ==> model_in(lines + more) == model_in(lines),
        model_in(lines) is None ==> model_in(lines + more) == model_in(more),
    decreases lines.len(),
{
    assert(seq![line].skip(1) =~= seq![]);
    if lines.len() == 0 {
        assert(lines + more =~= more);
    } else {
        assert((lines + more)[0] == lines[0]);
        assert((lines + more).skip(1) =~= lines.skip(1) + more);
        law_the_first_model_counts(lines.skip(1), more, line);
    }
}

/// A line names a model just when it begins with `model name` and has a colon behind that. The
/// model is what stands between the first colon and the next, or the end, without the white space
/// around it.
pub proof fn law_models_stand_behind_a_colon(
    gap: Seq<char>,
    front: Seq<char>,
    model: Seq<char>,
    back: Seq<char>,
    rest: Seq<char>,
    line: Seq<char>,
)
    requires
        forall|i: int| 0 <= i < gap.len() ==> #[trigger] gap[i] != ':',
        forall|i: int|
            0 <= i < (front + model + back).len() ==> #[trigger] (front + model + back)[i] != ':',
        text::only(front, Strip::White),
        text::only(back, Strip::White),
        model.len() > 0 ==> !text::white_space(model[0]) && !text::white_space(model.last()),
    ensures
        model_on("model name"@ + gap) is None,
        model_on("model name"@ + gap + seq![':'] + (front + model + back)) == Some(model),
        model_on("model name"@ + gap + seq![':'] + (front + model + back) + seq![':'] + rest)
            == Some(model),
        !text::spelled_at(line, "model name"@, 0) ==> model_on(line) is None,
{
    let key = "model name"@;
    let colon = seq![':'];
    let piece = front + model + back;
    text::law_stripping_leaves_the_middle(front, model, back, Strip::White);
    // Nothing behind the key.
    assert((key + gap).skip(key.len() as int) =~= gap);
    text::law_the_first_place_is_found(gap, colon, 0, 0);
    assert forall|j: int| 0 <= j implies !#[trigger] text::spelled_at(gap, colon, j) by {
        if text::spelled_at(gap, colon, j) {
            assert(gap[j + 0] == colon[0]);
        }
    }
    // One colon.
    let one = gap + colon + piece;
    assert(key + gap + colon + piece =~= key + one);
    assert((key + one).skip(key.len() as int) =~= one);
    assert((key + one).subrange(0, key.len() as int) =~= key);
    lemma_first_colon(gap, piece);
    text::law_the_first_place_is_found(one, colon, gap.len() + 1, 0);
    assert forall|j: int| gap.len() + 1 <= j implies !#[trigger] text::spelled_at(one, colon, j) by {
        if text::spelled_at(one, colon, j) {
            assert(one[j + 0] == colon[0]);
            assert(one[j] == piece[j - gap.len() - 1]);
        }
    }
    assert(one.skip(gap.len() + 1int) =~= piece);
    // Two colons.
    let two = gap + colon + (piece + colon + rest);
    assert(key + gap + colon + piece + colon + rest =~= key + two);
    assert((key + two).skip(key.len() as int) =~= two);
    assert((key + two).subrange(0, key.len() as int) =~= key);
    lemma_first_colon(gap, piece + colon + rest);
    let b = gap.len() + 1 + piece.len();
    text::law_the_first_place_is_found(two, colon, gap.len() + 1, b);
    assert(text::spelled_at(two, colon, b as int));
    assert forall|j: int| gap.len() + 1 <= j < b implies !#[trigger] text::spelled_at(
        two,
        colon,
        j,
    ) by {
        if text::spelled_at(two, colon, j) {
            assert(two[j + 0] == colon[0]);
            assert(two[j] == piece[j - gap.len() - 1]);
        }
    }
    assert(two.subrange(gap.len() + 1int, b as int) =~= piece);
    // Another line.
    if text::starts_with(line, key) {
        assert forall|k: int| 0 <= k < key.len() implies line[0 + k] == #[trigger] key[k] by {
            assert(line.subrange(0, key.len() as int)[k] == line[k]);
        }
        assert(text::spelled_at(line, key, 0));
    }
}

/// Behind a text without colons, the first colon is the one that follows it.
proof fn lemma_first_colon(gap: Seq<char>, rest: Seq<char>)
    requires
        forall|i: int| 0 <= i < gap.len() ==> #[trigger] gap[i] != ':',
    ensures
        text::first_at(gap + seq![':'] + rest, seq![':'], 0) == Some(gap.len()),
{
    let colon = seq![':'];
    let s = gap + colon + rest;
    text::law_the_first_place_is_found(s, colon, 0, gap.len());
    assert(text::spelled_at(s, colon, gap.len() as int));
    assert forall|j: int| 0 <= j < gap.len() implies !#[trigger] text::spelled_at(s, colon, j) by {
        if text::spelled_at(s, colon, j) {
            assert(s[j + 0] == colon[0]);
            assert(s[j] == gap[j]);
        }
    }
}

/// Every implementation has its row, in order and below the head: another implementation adds a
/// row at the end, and changes nothing above it.
pub proof fn law_every_implementation_has_its_row(
    impls: Seq<Impl>,
    figures: Seq<Option<(RecordModel, Printed)>>,
    imp: Impl,
    shown: Option<(RecordModel, Printed)>,
)
    requires
        figures.len() == impls.len(),
    ensures
        table_text(seq![], seq![], 0)
            == "| Implementation | Entities | Steps | Fastest | Mean | Throughput | Checksum |\n"@
            + "| --- | ---: | ---: | ---: | ---: | ---: | ---: |\n"@,
        table_text(impls.push(imp), figures.push(shown), impls.len() + 1) == table_text(
            impls,
            figures,
            impls.len(),
        ) + row_text(imp, shown),
{
    lemma_rows_above(impls, figures, imp, shown, impls.len());
}

proof fn lemma_rows_above(
    impls: Seq<Impl>,
    figures: Seq<Option<(RecordModel, Printed)>>,
    imp: Impl,
    shown: Option<(RecordModel, Printed)>,
    n: nat,
)
    requires
        figures.len() == impls.len(),
        n <= impls.len(),
    ensures
        table_text(impls.push(imp), figures.push(shown), n) == table_text(impls, figures, n),
    decreases n,
{
    if n > 0 {
        lemma_rows_above(impls, figures, imp, shown, (n - 1) as nat);
    }
}

/// Some cells, with a bar between them.
pub open spec fn barred(cells: Seq<Seq<char>>) -> Seq<char>
    decreases cells.len(),
{
    if cells.len() == 0 {
        seq![]
    } else if cells.len() == 1 {
        cells[0]
    } else {
        barred(cells.drop_last()) + " | "@ + cells.last()
    }
}

/// A row has a cell for every column of the head: the implementation and its name, the two counts
/// with separators, the three figures with their units, and the checksum as it was written. Where
/// there are no results, dashes stand for them.
pub proof fn law_rows_have_a_cell_per_column(imp: Impl, record: RecordModel, printed: Printed)
    ensures
        row_text(imp, Some((record, printed))) == "| "@ + barred(
            seq![
                imp.blurb@ + " (`"@ + imp.name@ + "`)"@,
                separated(record.entity_count),
                separated(record.steps),
                printed.fastest_ms@ + " ms"@,
                printed.mean_ms@ + " ms"@,
                printed.throughput@ + " M/s"@,
                record.checksum,
            ],
        ) + " |\n"@,
        row_text(imp, None) == "| "@ + barred(
            seq![
                imp.blurb@ + " (`"@ + imp.name@ + "`)"@,
                "—"@,
                "—"@,
                "—"@,
                "—"@,
                "—"@,
                "_no results_"@,
            ],
        ) + " |\n"@,
{
    reveal_strlit(" | ");
    reveal_strlit(" ms");
    reveal_strlit(" M/s");
    reveal_strlit(" ms | ");
    reveal_strlit(" M/s | ");
    reveal_strlit(" |\n");
    reveal_strlit("—");
    reveal_strlit("_no results_");
    reveal_strlit(" | — | — | — | — | — | _no results_ |\n");
    let head = imp.blurb@ + " (`"@ + imp.name@ + "`)"@;
    lemma_seven_cells(
        head,
        separated(record.entity_count),
        separated(record.steps),
        printed.fastest_ms@ + " ms"@,
        printed.mean_ms@ + " ms"@,
        printed.throughput@ + " M/s"@,
        record.checksum,
    );
    assert(" ms | "@ =~= " ms"@ + " | "@);
    assert(" M/s | "@ =~= " M/s"@ + " | "@);
    let bar = " | "@;
    let end = " |\n"@;
    assert(row_text(imp, Some((record, printed))) =~= "| "@ + (head + bar + separated(
        record.entity_count,
    ) + bar + separated(record.steps) + bar + (printed.fastest_ms@ + " ms"@) + bar + (
    printed.mean_ms@ + " ms"@) + bar + (printed.throughput@ + " M/s"@) + bar + record.checksum)
        + end);
    lemma_seven_cells(head, "—"@, "—"@, "—"@, "—"@, "—"@, "_no results_"@);
    let dashes = bar + "—"@ + bar + "—"@ + bar + "—"@ + bar + "—"@ + bar + "—"@ + bar
        + "_no results_"@ + end;
    assert(" | — | — | — | — | — | _no results_ |\n"@ =~= dashes);
    assert(row_text(imp, None) =~= "| "@ + (head + bar + "—"@ + bar + "—"@ + bar + "—"@ + bar
        + "—"@ + bar + "—"@ + bar + "_no results_"@) + end);
}

proof fn lemma_seven_cells(
    a: Seq<char>,
    b: Seq<char>,
    c: Seq<char>,
    d: Seq<char>,
    e: Seq<char>,
    f: Seq<char>,
    g: Seq<char>,
)
    ensures
        barred(seq![a, b, c, d, e, f, g]) == a + " | "@ + b + " | "@ + c + " | "@ + d + " | "@ + e
            + " | "@ + f + " | "@ + g,
{
    assert(seq![a, b, c, d, e, f, g].drop_last() =~= seq![a, b, c, d, e, f]);
    assert(seq![a, b, c, d, e, f].drop_last() =~= seq![a, b, c, d, e]);
    assert(seq![a, b, c, d, e].drop_last() =~= seq![a, b, c, d]);
    assert(seq![a, b, c, d].drop_last() =~= seq![a, b, c]);
    assert(seq![a, b, c].drop_last() =~= seq![a, b]);
    assert(seq![a, b].drop_last() =~= seq![a]);
    assert(barred(seq![a]) == a);
    assert(barred(seq![a, b]) == a + " | "@ + b);
    assert(barred(seq![a, b, c]) == barred(seq![a, b]) + " | "@ + c);
    assert(barred(seq![a, b, c, d]) == barred(seq![a, b, c]) + " | "@ + d);
    assert(barred(seq![a, b, c, d, e]) == barred(seq![a, b, c, d]) + " | "@ + e);
    assert(barred(seq![a, b, c, d, e, f]) == barred(seq![a, b, c, d, e]) + " | "@ + f);
    assert(barred(seq![a, b, c, d, e, f, g]) == barred(seq![a, b, c, d, e, f]) + " | "@ + g);
}

/// A row shows its own document: nothing without one, or where it is no record; else the record
/// that is in it, and what was printed of just that.
pub proof fn law_rows_show_their_documents<F: Fn(&Record) -> Printed>(
    print: F,
    json: String,
    figures: Option<(RecordModel, Printed)>,
)
    ensures
        shows(print, None, figures) <==> figures is None,
        results::record_in(json@) is None ==> (shows(print, Some(json), figures) <==> figures
            is None),
        results::record_in(json@) is Some && shows(print, Some(json), figures) ==> {
            &&& figures is Some
            &&& Some(figures->Some_0.0) == results::record_in(json@)
            &&& exists|r: Record|
                r@ == figures->Some_0.0 && #[trigger] print.ensures((&r,), figures->Some_0.1)
        },
{
    if results::record_in(json@) is Some && shows(print, Some(json), figures) {
        let found = results::record_in(json@)->Some_0;
        let (r, printed) = choose|r: Record, printed: Printed|
            {
                &&& #[trigger] print.ensures((&r,), printed)
                &&& r@ == found
                &&& figures == Some((found, printed))
            };
        assert(print.ensures((&r,), figures->Some_0.1));
    }
}

} // verus!
