use bad_ideas::figure::{reads_float, FloatText};
use bad_ideas::report::{
    cpu_model, environment_block, first_line, implementations, readme_only, replace_region,
    results_table, Impl, Machine, Missing, Printed,
};
use bad_ideas::results::{field, Figures, Record, Results};
use bad_ideas::text::{
    after_prefix, find_from, lines, parse_number, push_decimal, thousands, without, without_back,
    without_front, Strip,
};

fn results() -> Results {
    Results {
        name: "baseline".to_string(),
        entity_count: 100_000,
        steps: 1000,
        warmups: 2,
        repeats: 3,
        durations_ns: vec![83_880_000, 83_650_001, 84_000_000],
    }
}

fn number(text: &str) -> FloatText {
    FloatText::new(text.to_string()).unwrap()
}

fn figures() -> Figures {
    Figures {
        mean_ns: number("83843333.66666667"),
        entity_steps_per_sec: number("1195456772.1"),
        checksum: number("-69.2070479314134"),
    }
}

#[test]
fn document_has_its_fixed_shape() {
    let want = "{\n  \"name\": \"baseline\",\n  \"entity_count\": 100000,\n  \"steps\": 1000,\n  \"warmups\": 2,\n  \"repeats\": 3,\n  \"durations_ns\": [83880000, 83650001, 84000000],\n  \"min_ns\": 83650001,\n  \"mean_ns\": 83843333.66666667,\n  \"entity_steps_per_sec\": 1195456772.1,\n  \"checksum\": -69.2070479314134\n}\n";
    assert_eq!(results().to_json(&figures()), want);
    assert_eq!(results().path(), "results/baseline.json");
}

#[test]
fn document_without_runs() {
    let empty = Results { durations_ns: vec![], ..results() };
    assert_eq!(empty.min_ns(), 0);
    assert_eq!(empty.total_ns(), None);
    assert!(empty.to_json(&figures()).contains("  \"durations_ns\": [],\n  \"min_ns\": 0,\n"));
}

#[test]
fn reading_gives_back_what_was_written() {
    let json = results().to_json(&figures());
    let record = Record::parse(&json).unwrap();
    assert_eq!(record.entity_count, 100_000);
    assert_eq!(record.steps, 1000);
    assert_eq!(record.min_ns, 83_650_001);
    assert_eq!(record.mean_ns, "83843333.66666667");
    assert_eq!(record.entity_steps_per_sec, "1195456772.1");
    assert_eq!(record.checksum, "-69.2070479314134");
    assert_eq!(field(&json, "name").unwrap(), "baseline");
    assert_eq!(field(&json, "durations_ns").unwrap(), "[83880000, 83650001, 84000000]");
    assert_eq!(field(&json, "entity"), None);
}

#[test]
fn fields_are_found_by_line() {
    let text = "{\r\n\t\"a\" : 1,\r\n  \"b\":   \"two\" ,,\r\n\"c\":\n\"b\": 3\n}";
    assert_eq!(field(text, "a"), None);
    assert_eq!(field(text, "b").unwrap(), "two");
    assert_eq!(field(text, "c").unwrap(), "");
    assert_eq!(field("", "a"), None);
}

#[test]
fn incomplete_documents_are_no_records() {
    let json = results().to_json(&figures());
    for key in ["entity_count", "steps", "min_ns", "mean_ns", "entity_steps_per_sec", "checksum"] {
        let cut: String = json
            .lines()
            .filter(|l| !l.contains(&format!("\"{key}\"")))
            .map(|l| format!("{l}\n"))
            .collect();
        assert!(Record::parse(&cut).is_none(), "{key}");
    }
    assert!(Record::parse(&json.replace("83650001,\n", "fast,\n")).is_none());
    let huge = json.replace("\"min_ns\": 83650001", "\"min_ns\": 18446744073709551616");
    assert!(Record::parse(&huge).is_none());
}

#[test]
fn numbers_are_printed_and_read() {
    for n in [0u128, 7, 10, 99, 100, 65535, u64::MAX as u128, u128::MAX] {
        let mut out = String::from("n=");
        push_decimal(&mut out, n);
        assert_eq!(out, format!("n={n}"));
    }
    assert_eq!(parse_number("300", 255), None);
    assert_eq!(parse_number("255", 255), Some(255));
    assert_eq!(parse_number("5", 3), None);
    assert_eq!(parse_number("18446744073709551615", u64::MAX), Some(u64::MAX));
    assert_eq!(parse_number("1_000", u64::MAX), None);
    assert_eq!(parse_number("++1", u64::MAX), None);
    assert_eq!(parse_number("٣", u64::MAX), None);
}

#[test]
fn thousands_are_separated() {
    assert_eq!(thousands(0), "0");
    assert_eq!(thousands(12), "12");
    assert_eq!(thousands(999), "999");
    assert_eq!(thousands(1000), "1,000");
    assert_eq!(thousands(100000), "100,000");
    assert_eq!(thousands(1234567), "1,234,567");
    assert_eq!(thousands(u64::MAX), "18,446,744,073,709,551,615");
    assert_eq!(thousands(1234567).replace(',', ""), "1234567");
}

#[test]
fn texts_are_stripped_as_by_the_standard_library() {
    let samples = [
        "", " ", "a", "  a b\t\n", "\u{85}x\u{3000}", ",,a,,", "\"q\"", "\"", "é ü", "\u{200b}z",
        "\u{2028}\u{1680}y\u{205f}", " , ",
    ];
    for s in samples {
        assert_eq!(without(s, Strip::White), s.trim());
        assert_eq!(without_front(s, Strip::White), s.trim_start());
        assert_eq!(without_back(s, Strip::White), s.trim_end());
        assert_eq!(without_back(s, Strip::Comma), s.trim_end_matches(','));
        assert_eq!(without(s, Strip::Quote), s.trim_matches('"'));
    }
    for c in ('\0'..='\u{ffff}').step_by(1) {
        let s = String::from(c);
        assert_eq!(without(&s, Strip::White).is_empty(), c.is_whitespace(), "{c:?}");
    }
}

#[test]
fn lines_are_cut_as_by_the_standard_library() {
    for s in ["", "a", "a\n", "\n", "a\nb", "a\r\nb\r\n", "a\r", "\r\n\r\n", "a\rb\nc", "é\nü"] {
        let want: Vec<&str> = s.lines().collect();
        assert_eq!(lines(s), want, "{s:?}");
    }
}

#[test]
fn texts_are_found() {
    assert_eq!(find_from("abcabc", "bc", 0), Some(1));
    assert_eq!(find_from("abcabc", "bc", 2), Some(4));
    assert_eq!(find_from("abcabc", "x", 0), None);
    assert_eq!(find_from("abc", "", 3), Some(3));
    assert_eq!(find_from("abc", "", 4), None);
    assert_eq!(find_from("éa", "a", 0), Some(1));
    assert_eq!(after_prefix("key: 1", "key:"), Some(" 1"));
    assert_eq!(after_prefix("ke", "key"), None);
}

#[test]
fn regions_are_replaced_between_their_markers() {
    let text = "head <S> old <E> tail <S> <E>";
    assert_eq!(
        replace_region(text, "<S>", "<E>", "new").unwrap(),
        "head <S>\nnew\n<E> tail <S> <E>"
    );
    assert_eq!(replace_region("<E> <S>", "<S>", "<E>", "x"), Err(Missing::End));
    assert_eq!(replace_region("nothing <E>", "<S>", "<E>", "x"), Err(Missing::Start));
}

#[test]
fn regions_can_be_generated_again() {
    let text = "é <S> old <E> tail";
    let once = replace_region(text, "<S>", "<E>", "first").unwrap();
    let twice = replace_region(&once, "<S>", "<E>", "second").unwrap();
    assert_eq!(twice, replace_region(text, "<S>", "<E>", "second").unwrap());
}

#[test]
fn environment_is_described() {
    let m = Machine {
        cpu: Some("Apple M1 Pro"),
        os: "macos",
        arch: "aarch64",
        rustc: Some("rustc 1.96.0 (ac68faa20 2026-05-25)"),
        warmups: None,
        repeats: None,
    };
    assert_eq!(
        environment_block(&m),
        "_Measured on:_\n\n- **CPU:** Apple M1 Pro\n- **OS / arch:** macos / aarch64\n- **Toolchain:** rustc 1.96.0 (ac68faa20 2026-05-25)\n- **Build profile:** release (`opt-level=3`, `lto=true`, `codegen-units=1`)\n- **Warmup / timed repeats:** 2 / 5"
    );
    let m = Machine { cpu: None, rustc: None, warmups: Some("0"), repeats: Some("x"), ..m };
    let block = environment_block(&m);
    assert!(block.contains("**CPU:** unknown\n"));
    assert!(block.contains("**Toolchain:** unknown\n"));
    assert!(block.ends_with("0 / x"));
}

#[test]
fn first_lines_and_models() {
    assert_eq!(first_line("  rustc 1.0 \nmore"), Some("rustc 1.0"));
    assert_eq!(first_line("\nmore"), None);
    assert_eq!(first_line(""), None);
    let cpuinfo = "processor\t: 0\nmodel name no colon\nmodel name\t: Some CPU @ 2.0: GHz\nmodel name\t: Other\n";
    assert_eq!(cpu_model(cpuinfo), Some("Some CPU @ 2.0"));
    assert_eq!(cpu_model("model name:"), Some(""));
    assert_eq!(cpu_model("vendor: x"), None);
}

#[test]
fn table_has_a_row_per_implementation() {
    let other = Impl { name: "other", package: "other", blurb: "Other", guest: None };
    let unreadable = Impl { name: "bad", package: "bad", blurb: "Bad", guest: None };
    let baseline = implementations().remove(0);
    let documents = vec![
        None,
        Some(results().to_json(&figures())),
        Some("{}".to_string()),
    ];
    let print = |record: &Record| Printed {
        fastest_ms: format!("{:.2}", record.min_ns as f64 / 1e6),
        mean_ms: format!("{:.2}", record.mean_ns.parse::<f64>().unwrap() / 1e6),
        throughput: "1195.4".to_string(),
    };
    assert_eq!(
        results_table(&vec![other, baseline, unreadable], &documents, print),
        "| Implementation | Entities | Steps | Fastest | Mean | Throughput | Checksum |\n| --- | ---: | ---: | ---: | ---: | ---: | ---: |\n| Other (`other`) | — | — | — | — | — | _no results_ |\n| Array-of-structs native reference (`baseline`) | 100,000 | 1,000 | 83.65 ms | 83.84 ms | 1195.4 M/s | -69.2070479314134 |\n| Bad (`bad`) | — | — | — | — | — | _no results_ |\n"
    );
}

#[test]
fn registry_and_arguments() {
    let all = implementations();
    let names: Vec<&str> = all.iter().map(|i| i.name).collect();
    assert_eq!(names, vec!["baseline", "naive-wasm", "stream-wasm", "bulk-wasm"]);
    assert_eq!(all[0].guest, None);
    assert_eq!(all[1].guest, Some("naive-wasm-guest"));
    assert!(readme_only(&vec!["xtask".to_string(), "--readme-only".to_string()]));
    assert!(!readme_only(&vec!["xtask".to_string(), "--readme".to_string()]));
    assert!(!readme_only(&vec![]));
}

#[test]
fn floats_are_recognised_as_by_the_standard_library() {
    let texts = [
        "", "+", "-", ".", "1", "1.", ".5", "1.5", "-1.5", "+.5", "1e3", "1E-3", "1e", "1e+", "e5",
        ".e5", "1.e5", "1..5", "1.5.5", "inf", "-INF", "Infinity", "+infinity", "infinit", "nan",
        "NaN", "-nan", "nano", " 1", "1 ", "1,5", "0x10", "1_000", "--1", "+-1", "1e5.5", "1f",
        "83843333.66666667", "9007199254740993", "1e400", "\u{661}",
    ];
    for t in texts {
        assert_eq!(reads_float(t), t.parse::<f64>().is_ok(), "{:?}", t);
    }
}

#[test]
fn documents_without_numbers_are_no_records() {
    let json = results().to_json(&figures());
    assert!(Record::parse(&json).is_some());
    assert!(Record::parse(&json.replace("83843333.66666667", "fast")).is_none());
    assert!(Record::parse(&json.replace("1195456772.1", "12 M")).is_none());
    assert!(FloatText::new("12 M".to_string()).is_none());
    let mut odd = figures();
    odd.mean_ns = number("NaN");
    odd.entity_steps_per_sec = number("inf");
    assert_eq!(Record::parse(&results().to_json(&odd)).unwrap().mean_ns, "NaN");
    assert_eq!(odd.mean_ns.as_str(), "NaN");
}
