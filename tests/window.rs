use gba_test::ledger::{Ledger, TestOutcomes};
use gba_test::window::{Filter, ModuleFilter, Window};
use gba_test::Outcome;

fn s(x: &str) -> String {
    x.to_string()
}

fn finished(outcomes: Vec<Outcome<Vec<u8>>>, modules: Vec<Vec<String>>) -> TestOutcomes {
    let mut ledger = Ledger::new(modules, vec![0; 4096]);
    for o in outcomes.iter() {
        ledger.start_test().unwrap();
        let o = match o {
            Outcome::Passed => Outcome::Passed,
            Outcome::Failed(m) => Outcome::Failed(&m[..]),
            Outcome::Ignored => Outcome::Ignored,
        };
        ledger.complete_test(o).unwrap();
    }
    ledger.outcomes()
}

fn visible(w: &Window, out: &TestOutcomes, size: usize) -> Vec<(usize, Outcome<Vec<u8>>)> {
    (0..size).filter_map(|i| w.get(out, i)).collect()
}

fn mixed() -> TestOutcomes {
    let mut outcomes = Vec::new();
    let mut modules = Vec::new();
    for i in 0..40usize {
        outcomes.push(match i % 3 {
            0 => Outcome::Passed,
            1 => Outcome::Failed(format!("failure {i}").into_bytes()),
            _ => Outcome::Ignored,
        });
        modules.push(if i % 2 == 0 { vec![s("a"), s("x")] } else { vec![s("b")] });
    }
    finished(outcomes, modules)
}

fn accepts(f: Filter, o: &Outcome<Vec<u8>>) -> bool {
    match f {
        Filter::All => true,
        Filter::Passed => matches!(o, Outcome::Passed),
        Filter::Failed => matches!(o, Outcome::Failed(_)),
        Filter::Ignored => matches!(o, Outcome::Ignored),
    }
}

#[test]
fn window_matches_filtered_read_back() {
    let out = mixed();
    let all = out.iter();
    for f in [Filter::All, Filter::Passed, Filter::Failed, Filter::Ignored] {
        for scope in [None, Some(vec![s("a")]), Some(vec![s("b")]), Some(vec![s("c")])] {
            let expected: Vec<(usize, Outcome<Vec<u8>>)> = all
                .iter()
                .cloned()
                .enumerate()
                .filter(|(j, o)| {
                    accepts(f, o)
                        && scope.as_ref().is_none_or(|p| {
                            let m = if j % 2 == 0 { vec![s("a"), s("x")] } else { vec![s("b")] };
                            m.starts_with(p)
                        })
                })
                .collect();
            let w = Window::new(&out, f, scope.clone().map(ModuleFilter::new), 5);
            let got: Vec<(usize, Outcome<Vec<u8>>)> =
                (0..expected.len() + 2).filter_map(|i| w.get(&out, i)).collect();
            assert_eq!(got, expected);
        }
    }
}

#[test]
fn scrolling_forward_and_back_restores_the_window() {
    let outcomes = (0..30).map(|i| Outcome::Failed(format!("m{i}").into_bytes())).collect();
    let out = finished(outcomes, (0..30).map(|_| vec![s("t")]).collect());
    let mut w = Window::new(&out, Filter::Failed, None, 18);
    let initial = visible(&w, &out, 18);
    assert_eq!(initial.len(), 18);
    for k in 0..12 {
        let (j, o) = w.next(&out).unwrap();
        assert_eq!(j, 18 + k);
        assert_eq!(o, Outcome::Failed(format!("m{}", 18 + k).into_bytes()));
    }
    assert!(w.next(&out).is_none());
    assert_eq!(visible(&w, &out, 18)[0].0, 12);
    for k in 0..12 {
        let (j, _) = w.prev(&out).unwrap();
        assert_eq!(j, 11 - k);
    }
    assert!(w.prev(&out).is_none());
    assert_eq!(visible(&w, &out, 18), initial);
}

#[test]
fn next_at_the_end_and_prev_at_the_start_do_nothing() {
    let out = mixed();
    let mut w = Window::new(&out, Filter::All, None, 18);
    assert!(w.prev(&out).is_none());
    let start = visible(&w, &out, 18);
    assert_eq!(start[0].0, 0);
    while w.next(&out).is_some() {}
    let end = visible(&w, &out, 18);
    assert_eq!(end.last().unwrap().0, 39);
    assert!(w.next(&out).is_none());
    assert_eq!(visible(&w, &out, 18), end);
}

#[test]
fn empty_filter_result_never_moves() {
    let out = finished(vec![Outcome::Passed, Outcome::Passed], vec![vec![s("a")], vec![s("a")]]);
    let mut w = Window::new(&out, Filter::Failed, None, 18);
    assert!(w.get(&out, 0).is_none());
    assert!(w.next(&out).is_none());
    assert!(w.prev(&out).is_none());
}

#[test]
fn few_matches_never_move() {
    let out = mixed();
    let mut w = Window::new(&out, Filter::Passed, Some(ModuleFilter::new(vec![s("b")])), 18);
    let before = visible(&w, &out, 18);
    assert_eq!(before.len(), 7);
    assert!(w.next(&out).is_none());
    assert!(w.prev(&out).is_none());
    assert_eq!(visible(&w, &out, 18), before);
}

#[test]
fn module_filter_matches_prefixes() {
    let f = ModuleFilter::new(vec![s("a"), s("b")]);
    assert!(f.filter(&vec![s("a"), s("b")]));
    assert!(f.filter(&vec![s("a"), s("b"), s("c")]));
    assert!(!f.filter(&vec![s("a")]));
    assert!(!f.filter(&vec![s("a"), s("c")]));
    assert!(ModuleFilter::new(vec![]).filter(&vec![]));
    assert_eq!(f.prefix(), &vec![s("a"), s("b")]);
}

#[test]
fn filter_kinds() {
    let failed: Outcome<()> = Outcome::Failed(());
    assert!(Filter::All.filter(&failed));
    assert!(Filter::Failed.filter(&failed));
    assert!(!Filter::Passed.filter(&failed));
    assert!(Filter::Ignored.filter(&Outcome::<()>::Ignored));
}
