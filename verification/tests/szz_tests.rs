use szz::bfc::Bfc;
use szz::bfc_result::Result as BfcResult;
use szz::git;
use szz::git::ModifiedFile;
use szz::graph::{bfs, build_annotation_graph, first_change_from, try_build_annotation_graph, AnnotationBuild, Flow};
use szz::hunk::Hunk;
use szz::szz::{fix_vertices, Tally};
use szz::text::{last_piece, parse_i64, split_lines, split_on};
use szz::utils::{
    generate_hunk, get_hunk_parsed, get_hunks, hunk_of_line, large_modification, parse_commit_date,
    read_hunks, recent_vertex, CommitDate,
};
use szz::vertex::Vertex;

fn s(x: &str) -> String {
    x.to_string()
}

fn same(h: &Hunk, lf: i64, lt: i64, rf: i64, rt: i64, kind: i64) -> bool {
    h.left_from == lf && h.left_to == lt && h.right_from == rf && h.right_to == rt && h.kind == kind
}

#[test]
fn hunk_constructors_and_kinds() {
    let h = Hunk::new(1, 2, 3, 4, 1);
    assert!(same(&h, 1, 2, 3, 4, 1));
    assert!(h.is_change() && !h.is_addition() && !h.is_deletion());
    assert!(Hunk::new(0, 0, 0, 0, 2).is_addition());
    assert!(Hunk::new(0, 0, 0, 0, 3).is_deletion());
    let e = Hunk::initialized();
    assert!(same(&e, -1, -1, -1, -1, -1));
    assert!(!e.is_change() && !e.is_addition() && !e.is_deletion());
}

#[test]
fn vertex_constructors_and_eq() {
    let v = Vertex::new();
    assert_eq!(v.hash, " ");
    assert_eq!(v.line, -1);
    assert_eq!(v.label, " ");
    let a = Vertex::from_hash_and_line(s("abc"), 7);
    assert_eq!(a.hash, "abc");
    assert_eq!(a.line, 7);
    assert_eq!(a.label, "");
    assert!(a.eq(a.clone()));
    assert!(!a.eq(Vertex::from_hash_and_line(s("abc"), 8)));
    assert!(!a.eq(Vertex::new()));
}

fn bfc(repo: &str) -> Bfc {
    Bfc {
        id: 1,
        repo_name: s(repo),
        fix_commit_hash: s("f"),
        bug_commit_hash: vec![s("b")],
        best_scenario_issue_date: s("2020"),
        language: vec![s("rust")],
    }
}

#[test]
fn project_name_is_last_segment() {
    assert_eq!(bfc("owner/repo").get_name_project().unwrap(), "repo");
    assert_eq!(bfc("repo").get_name_project().unwrap(), "repo");
    assert_eq!(bfc("a/b/c").get_name_project().unwrap(), "c");
    assert_eq!(bfc("a/").get_name_project().unwrap(), "");
}

#[test]
fn result_is_correct_when_hashes_agree() {
    let r = BfcResult::new(3, s("o/r"), s("fix"), s("bug"), s("bug"), s("d"), vec![s("c")]);
    assert!(r.correct);
    assert_eq!(r.id, 3);
    assert_eq!(r.founded_bug_commit_hash, "bug");
    let w = BfcResult::new(3, s("o/r"), s("fix"), s("bug"), s("other"), s("d"), vec![]);
    assert!(!w.correct);
}

#[test]
fn text_helpers() {
    assert_eq!(split_on("a,b,,c", ','), vec![s("a"), s("b"), s(""), s("c")]);
    assert_eq!(split_on("", ','), vec![s("")]);
    assert_eq!(split_lines("a\r\nb\n"), vec![s("a"), s("b")]);
    assert_eq!(split_lines("a\n\nb"), vec![s("a"), s(""), s("b")]);
    assert_eq!(split_lines(""), Vec::<String>::new());
    assert_eq!(split_lines("x\r"), vec![s("x\r")]);
    assert_eq!(last_piece("src/main.rs", '/'), "main.rs");
}

#[test]
fn decimal_parsing_matches_std() {
    for t in ["0", "+5", "-0", "42", "", "-", "+", "12a", " 1", "9223372036854775807",
              "9223372036854775808", "-9223372036854775808", "-9223372036854775809", "007"] {
        assert_eq!(parse_i64(t), t.parse::<i64>().ok(), "input {:?}", t);
    }
}

#[test]
fn large_modification_values() {
    assert_eq!(large_modification(&Hunk::new(1, 3, 1, 3, 1), 100, 100), Ok(false));
    assert_eq!(large_modification(&Hunk::new(1, 10, 1, 10, 1), 100, 100), Ok(true));
    assert_eq!(large_modification(&Hunk::new(5, 5, 5, 5, 1), 100, 100), Ok(false));
    assert_eq!(large_modification(&Hunk::new(5, 9, 5, 5, 3), 100, 100), Ok(false));
    assert_eq!(large_modification(&Hunk::new(5, 5, 7, 6, 1), 100, 100), Ok(true));
    assert_eq!(large_modification(&Hunk::new(1, 5, 1, 5, 1), 0, 0), Ok(false));
}

#[test]
fn large_modification_ignores_file_sizes() {
    let h = Hunk::new(2, 9, 2, 3, 1);
    let base = large_modification(&h, 1, 1);
    for (a, b) in [(0, 0), (10, 1000), (1_000_000, 3), (i64::MAX, i64::MIN)] {
        assert_eq!(large_modification(&h, a, b), base);
    }
}

#[test]
fn hunk_headers_are_read() {
    let h = get_hunk_parsed(&s("5c5")).unwrap();
    assert!(same(&h, 5, 5, 5, 5, 1));
    let h = get_hunk_parsed(&s("5,7c5,8")).unwrap();
    assert!(same(&h, 5, 7, 5, 8, 1));
    let h = get_hunk_parsed(&s("4a5,7")).unwrap();
    assert!(same(&h, 4, 4, 5, 7, 2));
    let h = get_hunk_parsed(&s("5,7d4")).unwrap();
    assert!(same(&h, 5, 7, 4, 4, 3));
    let h = get_hunk_parsed(&s("< 5c5")).unwrap();
    assert!(same(&h, -1, -1, -1, -1, -1));
    let h = generate_hunk(s("1, 2c3"), 'c', 1).unwrap();
    assert!(same(&h, 1, 2, 3, 3, 1));
}

#[test]
fn diff_output_gives_hunks() {
    let out = s("1c1\n< a\n---\n> b\n3a4\n> c\n6,7d6\n< d\n< e\n");
    let hs = get_hunks(&out).unwrap();
    assert_eq!(hs.len(), 3);
    assert!(same(&hs[0], 1, 1, 1, 1, 1));
    assert!(same(&hs[1], 3, 3, 4, 4, 2));
    assert!(same(&hs[2], 6, 7, 6, 6, 3));
    let again = read_hunks(&out).unwrap();
    assert_eq!(again.len(), 3);
    assert!(read_hunks(&s("1c99999999999999999999\n")).is_none());
    assert_eq!(read_hunks(&s("")).unwrap().len(), 0);
}

#[test]
fn git_commands() {
    assert_eq!(git::date_command(&s("abc")), "git show abc -s --date=iso --format=\"%cd\"");
    assert_eq!(git::insertion_commit_command(&s("h"), &s("a/b.rs")),
        "git log --follow --diff-filter=A --find-renames=90% --pretty=%H h -- a/b.rs");
    assert_eq!(git::commits_touch_file_command(&s("x"), &s("y"), &s("f")), "git rev-list x^..y -- f");
    assert_eq!(git::modified_files_command(&s("h"), &s("h\n")), "git diff-tree --no-commit-id --name-only -r h HEAD");
    assert_eq!(git::modified_files_command(&s("h"), &s("g\n")), "git log -m -1 --name-only --pretty=format: h");
    assert_eq!(git::checkout_command(&s("h")), "git checkout h");
    assert_eq!(git::clone_command(&s("https://github.com/"), &s("o/r")), "git clone https://github.com/o/r.git");
    assert_eq!(git::diff_command(&s("a"), &s("b")), "diff -a -d a b");
    assert_eq!(git::join_path(&s("p"), &s("r")), "p/r");
    assert_eq!(git::temp_file_path(&s("n.rs"), &s("h.txt"), &s("w")), "w/n.rs_h.txt");
    assert_eq!(git::insertion_commit_id(&s("abc\n")), "abc");
    let (a, b) = git::get_files_diff(&s("h1"), &s("h2"), &s("src/x.rs"), &s("work/"));
    assert_eq!(a, "work/x.rs_h1.txt");
    assert_eq!(b, "work/x.rs_h2.txt");
}

#[test]
fn commit_list_is_oldest_first() {
    let v = git::get_commits_touch_file(&s("c3\nc2\n\nc1\n")).unwrap();
    assert_eq!(v, vec![s("c1"), s("c2"), s("c3")]);
    assert_eq!(git::get_commits_touch_file(&s("")).unwrap().len(), 0);
}

#[test]
fn modified_files_from_lines() {
    let r = ModifiedFile::from_lines_to_vec(&s("a.rs\nb.rs\n"), vec![Ok(vec![s("x")]), Ok(vec![])]).unwrap();
    assert_eq!(r.len(), 2);
    assert_eq!(r[0].path, "a.rs");
    assert_eq!(r[0].content, vec![s("x")]);
    assert_eq!(r[1].path, "b.rs");
    let e = ModifiedFile::from_lines_to_vec(&s("a\nb\nc"), vec![Ok(vec![]), Err(s("gone")), Err(s("later"))]);
    assert_eq!(e.unwrap_err(), "gone");
    let one = ModifiedFile::from_retrive_file(&s("p"), Ok(vec![s("l")])).unwrap();
    assert_eq!(one.path, "p");
    assert_eq!(ModifiedFile::from_retrive_file(&s("p"), Err(s("no"))).unwrap_err(), "no");
}

#[test]
fn commit_dates_and_recent_vertex() {
    let d = parse_commit_date(&s("2020-01-02 03:04:05 +0100\n")).unwrap();
    assert_eq!(d.seconds, 1577934245);
    assert_eq!(d.nanos, 0);
    assert!(parse_commit_date(&s("not a date")).is_none());
    let v1 = Vertex::from_hash_and_line(s("old"), 1);
    let v2 = Vertex::from_hash_and_line(s("new"), 1);
    let v3 = Vertex::from_hash_and_line(s("tie"), 1);
    let c1 = CommitDate { seconds: 100, nanos: 0 };
    let c2 = CommitDate { seconds: 200, nanos: 0 };
    assert_eq!(recent_vertex(&vec![(v1.clone(), c1), (v2.clone(), c2)]).unwrap(), "new");
    assert_eq!(recent_vertex(&vec![(v2.clone(), c2), (v1.clone(), c1)]).unwrap(), "new");
    assert_eq!(recent_vertex(&vec![(v2.clone(), c2), (v3.clone(), c2)]).unwrap(), "new");
    assert_eq!(recent_vertex(&vec![]).unwrap(), " ");
}

#[test]
fn tally_counts() {
    let mut t = Tally::new();
    t.record(&s("a"), &s("a"));
    t.record(&s("a"), &s("b"));
    t.record(&s("a"), &s(" "));
    t.record(&s("a"), &s(""));
    assert_eq!(t.n_correct, 1);
    assert_eq!(t.n_not_found, 2);
    assert_eq!(t.wrongs(4), 1);
}

fn modified(lines: usize) -> ModifiedFile {
    ModifiedFile { path: s("f.rs"), content: (0..lines).map(|i| format!("l{}", i)).collect() }
}

#[test]
fn annotation_graph_of_two_versions() {
    let commits = vec![s("c1"), s("c2")];
    let g = build_annotation_graph(&s("c2"), &modified(3), &commits, &vec![Some(3), None],
        &vec![Ok(vec![Hunk::new(2, 2, 2, 2, 1)])]).unwrap();
    assert_eq!(g.node_count(), 6);
    assert_eq!(g.edge_count(), 4);
    let labels: Vec<(String, i64, String)> = g.node_weights().map(|v| (v.hash.clone(), v.line, v.label.clone())).collect();
    assert_eq!(labels[4], (s("c2"), 2, s("CHANGE")));
    assert_eq!(labels[0], (s("c1"), 1, s("")));
    assert_eq!(labels[5], (s("c2"), 3, s("")));
    let edges: Vec<(usize, usize)> = g.raw_edges().iter().map(|e| (e.source().index(), e.target().index())).collect();
    assert_eq!(edges, vec![(0, 3), (4, 1), (4, 1), (2, 5)]);
    let fixes = fix_vertices(&g, &s("c2"));
    assert_eq!(fixes, vec![4]);
    assert_eq!(bfs(&g, 4).unwrap_err(), "Not found");
}

#[test]
fn annotation_graph_finds_the_earlier_change() {
    let commits = vec![s("c0"), s("c1"), s("c2")];
    let hunks = vec![Ok(vec![Hunk::new(2, 2, 2, 2, 1)]), Ok(vec![Hunk::new(2, 2, 2, 2, 1)])];
    let g = build_annotation_graph(&s("c2"), &modified(3), &commits, &vec![Some(3), Some(3), None], &hunks).unwrap();
    assert_eq!(g.node_count(), 9);
    let fixes = fix_vertices(&g, &s("c2"));
    assert_eq!(fixes.len(), 1);
    let found = bfs(&g, fixes[0]).unwrap();
    assert_eq!(found.hash, "c1");
    assert_eq!(found.label, "CHANGE");
    assert_eq!(found.line, 2);
}

#[test]
fn annotation_graph_skips_failed_diffs() {
    let commits = vec![s("c1"), s("c2")];
    let g = build_annotation_graph(&s("c2"), &modified(2), &commits, &vec![Some(2), None],
        &vec![Err(s("diff failed"))]).unwrap();
    assert_eq!(g.node_count(), 4);
    assert_eq!(g.edge_count(), 0);
}

#[test]
fn annotation_graph_unchanged_lines_are_linked() {
    let commits = vec![s("c1"), s("c2")];
    let g = build_annotation_graph(&s("c2"), &modified(2), &commits, &vec![Some(2), None],
        &vec![Ok(vec![])]).unwrap();
    assert_eq!(g.edge_count(), 2);
    assert!(fix_vertices(&g, &s("c2")).is_empty());
}

#[test]
fn annotation_graph_reports_missing_hunk_line() {
    let commits = vec![s("c1"), s("c2")];
    let r = build_annotation_graph(&s("c2"), &modified(0), &commits, &vec![Some(2), None],
        &vec![Ok(vec![Hunk::new(1, 2, 0, 0, 3)])]);
    assert_eq!(r.unwrap_err(), "Error in hunk: large modification");
}

#[test]
fn empty_history_gives_empty_graph() {
    let g = build_annotation_graph(&s("c"), &modified(1), &vec![], &vec![], &vec![]).unwrap();
    assert_eq!(g.node_count(), 0);
}

#[test]
fn hunk_text() {
    let h = Hunk::new(1, -2, 30, 400, 1);
    assert_eq!(h.to_string(), "Hunk: leftFrom=1, leftTo=-2, rightFrom=30, rightTo=400, kind=1");
    assert_eq!(Hunk::initialized().to_string(), "Hunk: leftFrom=-1, leftTo=-1, rightFrom=-1, rightTo=-1, kind=-1");
}

#[test]
fn integer_text_round_trips() {
    for x in [0i64, 7, -7, 10, 1234567890, i64::MAX, i64::MIN, -100] {
        let t = szz::text::i64_text(x);
        assert_eq!(t, x.to_string());
        assert_eq!(parse_i64(&t), Some(x));
    }
}


#[test]
fn try_build_reports_where_the_build_cannot_go_on() {
    let commits = vec![s("c1"), s("c2")];
    let r = try_build_annotation_graph(&s("c2"), &modified(2), &commits, &vec![Some(2), None],
        &vec![Ok(vec![Hunk::new(5, 5, 5, 5, 1)])]);
    assert!(r.is_none());
    let ok = try_build_annotation_graph(&s("c2"), &modified(3), &commits, &vec![Some(3), None],
        &vec![Ok(vec![Hunk::new(2, 2, 2, 2, 1)])]);
    assert_eq!(ok.unwrap().unwrap().node_count(), 6);
    let halted = try_build_annotation_graph(&s("c2"), &modified(0), &commits, &vec![Some(2), None],
        &vec![Ok(vec![Hunk::new(1, 2, 0, 0, 3)])]);
    assert_eq!(halted.unwrap().unwrap_err(), "Error in hunk: large modification");
}

#[test]
fn scan_of_a_given_order() {
    let commits = vec![s("c0"), s("c1"), s("c2")];
    let hunks = vec![Ok(vec![Hunk::new(2, 2, 2, 2, 1)]), Ok(vec![Hunk::new(2, 2, 2, 2, 1)])];
    let g = build_annotation_graph(&s("c2"), &modified(3), &commits, &vec![Some(3), Some(3), None], &hunks).unwrap();
    let fixes = fix_vertices(&g, &s("c2"));
    let found = first_change_from(&g, &vec![fixes[0], 4, 0], &s("c2")).unwrap();
    assert_eq!(found.hash, "c1");
    assert_eq!(found.line, 2);
    assert_eq!(first_change_from(&g, &vec![0, 1], &s("c2")).unwrap_err(), "Not found");
    assert_eq!(first_change_from(&g, &vec![fixes[0]], &s("c2")).unwrap_err(), "Not found");
}

#[test]
fn header_letters_read_sides_alike() {
    for (left, right) in [("5", "7"), ("5,7", "8"), ("12", "3,4"), ("1,2", "3,4")] {
        let c = generate_hunk(format!("{}c{}", left, right), 'c', 9).unwrap();
        let a = generate_hunk(format!("{}a{}", left, right), 'a', 9).unwrap();
        let d = generate_hunk(format!("{}d{}", left, right), 'd', 9).unwrap();
        for h in [&a, &d] {
            assert!(same(h, c.left_from, c.left_to, c.right_from, c.right_to, 9));
        }
    }
}

#[test]
fn hunk_kind_follows_the_matched_pattern() {
    let h = hunk_of_line(&s("2,3c4"), true, true, false).unwrap();
    assert!(same(&h, 2, 3, 4, 4, 1));
    let h = hunk_of_line(&s("2a3,5"), false, true, true).unwrap();
    assert!(same(&h, 2, 2, 3, 5, 2));
    let h = hunk_of_line(&s("7d6"), false, false, true).unwrap();
    assert!(same(&h, 7, 7, 6, 6, 3));
    let h = hunk_of_line(&s("> text"), false, false, false).unwrap();
    assert!(same(&h, -1, -1, -1, -1, -1));
    assert!(hunk_of_line(&s("xcy"), true, false, false).is_none());
}

#[test]
fn dates_before_the_start_date_are_kept() {
    let v1 = Vertex::from_hash_and_line(s("early"), 1);
    let v2 = Vertex::from_hash_and_line(s("earlier"), 1);
    let c1 = CommitDate { seconds: 1000, nanos: 0 };
    let c2 = CommitDate { seconds: 10, nanos: 0 };
    assert_eq!(recent_vertex(&vec![(v1.clone(), c1)]).unwrap(), "early");
    assert_eq!(recent_vertex(&vec![(v1.clone(), c1), (v2.clone(), c2)]).unwrap(), "early");
    let start = CommitDate { seconds: 368496000, nanos: 0 };
    let later = CommitDate { seconds: 368496000, nanos: 1 };
    assert_eq!(recent_vertex(&vec![(v1.clone(), start), (v2.clone(), c2)]).unwrap(), "earlier");
    assert_eq!(recent_vertex(&vec![(v1.clone(), later), (v2.clone(), start)]).unwrap(), "early");
}

#[test]
fn stepped_build_matches_the_whole_build() {
    let commits = vec![s("c0"), s("c1"), s("c2")];
    let hunks = vec![Ok(vec![Hunk::new(2, 2, 2, 2, 1)]), Ok(vec![Hunk::new(2, 2, 2, 2, 1)])];
    let sizes = vec![Some(3), Some(3), None];
    let whole = build_annotation_graph(&s("c2"), &modified(3), &commits, &sizes, &hunks).unwrap();
    let mut b = AnnotationBuild::start(&s("c2"), &modified(3), &commits, &sizes).unwrap();
    for h in hunks.iter() {
        assert!(matches!(b.add_pair(h), Flow::Go(())));
    }
    let g = b.finish();
    let edges = |g: &szz::graph_store::AnnotationGraph| -> Vec<(usize, usize)> {
        g.raw_edges().iter().map(|e| (e.source().index(), e.target().index())).collect()
    };
    assert_eq!(edges(&g), edges(&whole));
    assert_eq!(g.node_count(), whole.node_count());
    let found = bfs(&g, fix_vertices(&g, &s("c2"))[0]).unwrap();
    assert_eq!((found.hash, found.line, found.label), (s("c1"), 2, s("CHANGE")));
}

#[test]
fn stepped_build_halts_on_a_missing_line() {
    let commits = vec![s("c1"), s("c2"), s("c3")];
    let mut b = AnnotationBuild::start(&s("c3"), &modified(0), &commits, &vec![Some(2), Some(2), None]).unwrap();
    match b.add_pair(&Ok(vec![Hunk::new(1, 2, 0, 0, 3)])) {
        Flow::Halt(e) => assert_eq!(e, "Error in hunk: large modification"),
        _ => panic!("the build should halt"),
    }
}

#[test]
fn bfs_finds_only_reachable_changes() {
    let commits = vec![s("c0"), s("c1"), s("c2")];
    let hunks = vec![Ok(vec![Hunk::new(2, 2, 2, 2, 1)]), Ok(vec![])];
    let g = build_annotation_graph(&s("c2"), &modified(3), &commits, &vec![Some(3), Some(3), None], &hunks).unwrap();
    // Line 1 of c2 was not rewritten: no edge leads from it to a change.
    let first = (0..g.node_count()).find(|&i| g[petgraph::graph::NodeIndex::new(i)].hash == "c2" && g[petgraph::graph::NodeIndex::new(i)].line == 1).unwrap();
    assert_eq!(bfs(&g, first).unwrap_err(), "Not found");
}

#[test]
fn bfs_prefers_the_nearest_change() {
    let commits = vec![s("c0"), s("c1"), s("c2"), s("c3")];
    let change = || Ok(vec![Hunk::new(2, 2, 2, 2, 1)]);
    let hunks = vec![change(), change(), change()];
    let g = build_annotation_graph(&s("c3"), &modified(3), &commits,
        &vec![Some(3), Some(3), Some(3), None], &hunks).unwrap();
    let fixes = fix_vertices(&g, &s("c3"));
    assert_eq!(fixes.len(), 1);
    let found = bfs(&g, fixes[0]).unwrap();
    assert_eq!((found.hash, found.line, found.label), (s("c2"), 2, s("CHANGE")));
}
