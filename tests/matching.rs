use strem::compiler::compile;
use strem::config::Configuration;
use strem::io::Importer;
use strem::matcher::{leftmost_from, offline, FrameSymbols, Match, OnlineMatcher};
use strem::monitor::quantify;
use strem::symbolizer::SymbolicAbstractSyntaxTree;

/// Frames from the satisfaction of each table entry, indexed from 0.
fn frames(ast: &SymbolicAbstractSyntaxTree, sat: &[Vec<bool>]) -> Vec<FrameSymbols> {
    sat.iter()
        .enumerate()
        .map(|(i, s)| FrameSymbols::from_evaluation(&ast.table, i, s))
        .collect()
}

fn spans(ms: &[Match]) -> Vec<(usize, usize)> {
    ms.iter().map(|m| (m.start, m.end)).collect()
}

#[test]
fn single_letter_matches_each_frame_with_the_label() {
    let ast = compile("[[:car:]]").ok().unwrap();
    let fs = frames(&ast, &[vec![true], vec![false], vec![true]]);
    assert_eq!(spans(&offline(&ast, &fs, None)), vec![(0, 1), (2, 3)]);
}

#[test]
fn alternation_under_star_is_greedy() {
    let ast = compile("([[:car:]]|[[:bus:]])*").ok().unwrap();
    let fs = frames(&ast, &[vec![true, false], vec![false, true], vec![false, false]]);
    assert_eq!(spans(&offline(&ast, &fs, None)), vec![(0, 2)]);
}

#[test]
fn counted_range_takes_the_longest() {
    let ast = compile("[[:car:]]{2,3}").ok().unwrap();
    let fs = frames(&ast, &[vec![true], vec![true], vec![true], vec![true], vec![false]]);
    assert_eq!(spans(&offline(&ast, &fs, None)), vec![(0, 3)]);
}

#[test]
fn limit_bounds_the_reports() {
    let ast = compile("[[:car:]]").ok().unwrap();
    let fs = frames(&ast, &[vec![true], vec![true], vec![true]]);
    assert_eq!(spans(&offline(&ast, &fs, Some(2))), vec![(0, 1), (1, 2)]);
    assert_eq!(offline(&ast, &fs, Some(0)).len(), 0);
}

#[test]
fn frame_symbols_follow_table_order() {
    let ast = compile("[[:a:]][[:b:]][[:c:]]").ok().unwrap();
    let f = FrameSymbols::from_evaluation(&ast.table, 7, &vec![true, false, true]);
    assert_eq!(f.index, 7);
    assert_eq!(f.symbols, vec!['a', 'c']);
}

#[test]
fn leftmost_prefers_earliest_start_then_longest_end() {
    let ast = compile("[[:b:]]|[[:a:]][[:b:]]").ok().unwrap();
    // `[:b:]` is symbol 'a' and `[:a:]` is symbol 'b': the frames hold b, a, b.
    let fs = vec![
        FrameSymbols { index: 0, symbols: vec!['a'] },
        FrameSymbols { index: 1, symbols: vec!['b'] },
        FrameSymbols { index: 2, symbols: vec!['a'] },
    ];
    let m = leftmost_from(&ast, &fs, 0).unwrap();
    assert_eq!((m.start, m.end), (0, 1));
    let m = leftmost_from(&ast, &fs, 1).unwrap();
    assert_eq!((m.start, m.end), (1, 3));
}

#[test]
fn no_match_without_symbols() {
    let ast = compile("[[:car:]]*").ok().unwrap();
    let fs = frames(&ast, &[vec![false], vec![false]]);
    assert!(leftmost_from(&ast, &fs, 0).is_none());
    assert_eq!(offline(&ast, &fs, None).len(), 0);
}

fn config(channels: Option<Vec<String>>, skip: Option<usize>) -> Configuration {
    Configuration {
        pattern: String::from("[[:car:]]"),
        datastream: None,
        online: false,
        channels,
        limit: None,
        export: false,
        quiet: false,
        skip,
    }
}

#[test]
fn channel_filter_leaves_out_other_channels() {
    let c = config(Some(vec![String::from("front")]), None);
    let importer = Importer::new(&c);
    assert!(importer.admits_channel(&String::from("front")));
    assert!(!importer.admits_channel(&String::from("rear")));
    let all = config(None, None);
    assert!(Importer::new(&all).admits_channel(&String::from("rear")));
}

#[test]
fn skip_leaves_out_the_first_frames() {
    let c = config(None, Some(2));
    let mut importer = Importer::new(&c);
    assert!(importer.skips_frame());
    assert!(importer.skips_frame());
    assert!(!importer.skips_frame());
    assert!(!importer.skips_frame());
    assert_eq!(importer.count, 2);
}

#[test]
fn reported_matches_are_ordered_and_disjoint() {
    let ast = compile("[[:y:]]|[[:x:]][[:y:]]").ok().unwrap();
    // `[:y:]` is 'a' and `[:x:]` is 'b': the frames hold y, x, y, y, x, y.
    let syms = ['a', 'b', 'a', 'a', 'b', 'a'];
    let fs: Vec<FrameSymbols> = syms.iter().enumerate().map(|(i, c)| FrameSymbols { index: i, symbols: vec![*c] }).collect();
    let ms = offline(&ast, &fs, None);
    assert_eq!(spans(&ms), vec![(0, 1), (1, 3), (3, 4), (4, 6)]);
    for w in ms.windows(2) {
        assert!(w[0].start < w[0].end && w[0].end <= w[1].start);
    }
}

#[test]
fn matches_stay_within_the_horizon() {
    let ast = compile("[[:car:]]{1,2}[[:bus:]]").ok().unwrap();
    let h = strem::matcher::horizon(&ast).unwrap();
    assert_eq!(h, 3);
    let fs = frames(&ast, &[vec![true, false], vec![true, false], vec![true, false], vec![false, true], vec![true, false], vec![false, true]]);
    let ms = offline(&ast, &fs, None);
    assert_eq!(spans(&ms), vec![(1, 4), (4, 6)]);
    for m in ms.iter() {
        assert!(m.end - m.start <= h);
    }
}

#[test]
fn empty_count_range_matches_nothing() {
    let ast = compile("[[:car:]]{3,2}").ok().unwrap();
    let fs = frames(&ast, &[vec![true], vec![true], vec![true]]);
    assert!(offline(&ast, &fs, None).is_empty());
}

#[test]
fn only_the_own_format_version_is_read() {
    assert_eq!(strem::io::format_version(), "0.1.0");
    assert!(strem::io::accepts_version(&String::from("0.1.0")));
    assert!(!strem::io::accepts_version(&String::from("0.2.0")));
    assert!(!strem::io::accepts_version(&String::from("")));
}

#[test]
fn quantifiers_decide_from_the_tuples() {
    assert!(!quantify(true, &vec![]));
    assert!(quantify(true, &vec![false, true]));
    assert!(!quantify(true, &vec![false, false]));
    assert!(!quantify(false, &vec![]));
    assert!(quantify(false, &vec![true, true]));
    assert!(!quantify(false, &vec![true, false]));
}

/// All the reports of an online run: every push, then the end of the stream.
fn online_run(ast: &SymbolicAbstractSyntaxTree, fs: Vec<FrameSymbols>, limit: Option<usize>) -> Vec<(usize, usize)> {
    let mut m = OnlineMatcher::new(ast, strem::matcher::horizon(ast), limit);
    let mut out = Vec::new();
    for f in fs {
        for r in m.push(ast, f) {
            out.push((r.start, r.end));
        }
    }
    for r in m.finish(ast) {
        out.push((r.start, r.end));
    }
    out
}

#[test]
fn online_waits_until_a_match_is_final() {
    let ast = compile("[[:car:]]{2,3}").ok().unwrap();
    let fs = frames(&ast, &[vec![true], vec![true], vec![true], vec![true], vec![false]]);
    let mut m = OnlineMatcher::new(&ast, strem::matcher::horizon(&ast), None);
    let mut at = Vec::new();
    for (i, f) in fs.into_iter().enumerate() {
        for r in m.push(&ast, f) {
            at.push((i, r.start, r.end));
        }
    }
    assert!(m.finish(&ast).is_empty());
    assert_eq!(at, vec![(2, 0, 3)]);
}

#[test]
fn online_reports_what_offline_reports() {
    let ast = compile("[[:car:]]{1,2}").ok().unwrap();
    let sat = [vec![true], vec![true], vec![true]];
    let off = spans(&offline(&ast, &frames(&ast, &sat), None));
    assert_eq!(off, vec![(0, 2), (2, 3)]);
    assert_eq!(online_run(&ast, frames(&ast, &sat), None), off);
}

#[test]
fn online_handles_frames_without_symbols() {
    let ast = compile("[[:car:]][[:car:]]").ok().unwrap();
    let sat = [vec![true], vec![false], vec![true]];
    let off = spans(&offline(&ast, &frames(&ast, &sat), None));
    assert_eq!(off, vec![(0, 3)]);
    assert_eq!(online_run(&ast, frames(&ast, &sat), None), off);
}

#[test]
fn online_stops_at_the_limit() {
    let ast = compile("[[:car:]]").ok().unwrap();
    let sat = [vec![true], vec![true], vec![true]];
    assert_eq!(online_run(&ast, frames(&ast, &sat), Some(1)), vec![(0, 1)]);
    assert_eq!(online_run(&ast, frames(&ast, &sat), Some(0)), vec![]);
}

#[test]
fn online_equals_offline_on_several_patterns() {
    let patterns = [
        "[[:car:]]|[[:bus:]]",
        "[[:car:]][[:bus:]]{1,2}",
        "([[:car:]]|[[:bus:]]){2}",
        "[[:car:]]*[[:bus:]]",
        "([[:car:]][[:bus:]])|[[:car:]]",
    ];
    let sat = [
        vec![true, false],
        vec![false, true],
        vec![true, true],
        vec![false, false],
        vec![false, true],
        vec![true, false],
        vec![true, false],
        vec![false, true],
    ];
    for p in patterns.iter() {
        let ast = compile(p).ok().unwrap();
        let off = spans(&offline(&ast, &frames(&ast, &sat), None));
        assert_eq!(online_run(&ast, frames(&ast, &sat), None), off, "pattern {}", p);
    }
}

#[test]
fn online_window_stays_small() {
    let ast = compile("[[:car:]][[:bus:]]").ok().unwrap();
    let mut m = OnlineMatcher::new(&ast, strem::matcher::horizon(&ast), None);
    for i in 0..50 {
        let sat = if i % 3 == 0 { vec![false, false] } else { vec![true, false] };
        assert!(m.push(&ast, FrameSymbols::from_evaluation(&ast.table, i, &sat)).is_empty());
        assert!(m.window.len() <= 3);
    }
    assert!(m.finish(&ast).is_empty());
}
