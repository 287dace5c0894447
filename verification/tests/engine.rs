use mecab::BoundaryType;
use mecab::MecabError;
use mecab::NodeStat;
use mecab::dict::DictionaryInfo;
use mecab::dict::Entry;
use mecab::dict::Model;
use mecab::lattice::Lattice;
use mecab::nbest::NBest;
use mecab::search::search;

fn info() -> DictionaryInfo {
    DictionaryInfo::new("sys.dic".to_string(), "utf-8".to_string(), 3, 0, 1, 1, 102, None)
}

fn entry(surface: &str, cost: i16) -> Entry {
    Entry {
        surface: surface.as_bytes().to_vec(),
        lcattr: 0,
        rcattr: 0,
        posid: 0,
        wcost: cost,
        feature: format!("w:{}", surface),
    }
}

/// Single-character entries of cost zero, constant transition cost one.
fn unit_model() -> Model {
    let entries = vec![entry("a", 0), entry("b", 0), entry("c", 0)];
    Model::new(entries, vec![1], 1, 1, info())
}

fn build(model: &Model, text: &str) -> Lattice {
    let mut lat = Lattice::new();
    lat.set_sentence(text.as_bytes().to_vec());
    lat.build(model).expect("build failed");
    lat
}

#[test]
fn version_string() {
    assert_eq!(mecab::version(), "0.996");
}

#[test]
fn char_by_char_best_path_costs_length_minus_one() {
    let model = unit_model();
    let mut lat = build(&model, "abc");
    let s = search(&mut lat, &model).expect("search failed");
    // three internal transitions minus the two free sentence boundaries
    assert_eq!(s.total, 2);
    // bos + three characters + eos
    assert_eq!(s.path.len(), 5);
    assert_eq!(s.path[0], lat.bos_node());
    assert_eq!(*s.path.last().unwrap(), lat.eos_node());
    for w in s.path.windows(2) {
        let a = lat.node_at(w[0]);
        let b = lat.node_at(w[1]);
        assert_eq!(a.begin + a.length, b.begin);
    }
}

#[test]
fn isbest_marks_exactly_the_best_path() {
    let model = unit_model();
    let mut lat = build(&model, "ab");
    let s = search(&mut lat, &model).expect("search failed");
    for id in 0..lat.node_count() {
        assert_eq!(s.isbest[id], s.path.contains(&id));
    }
}

#[test]
fn nbest_first_path_matches_viterbi() {
    let mut entries = vec![entry("a", 0), entry("b", 0), entry("c", 0)];
    entries.push(entry("ab", 0));
    let model = Model::new(entries, vec![1], 1, 1, info());
    let mut lat = build(&model, "abc");
    let s = search(&mut lat, &model).expect("search failed");
    let mut nb = NBest::new(&mut lat, &model).expect("nbest failed");
    let first = nb.next_path(&lat, &model).expect("no first path");
    // the combined "ab" entry saves one transition
    assert_eq!(s.total, 1);
    assert_eq!(path_cost(&lat, &model, &first), s.total);
}

fn path_cost(lat: &Lattice, model: &Model, path: &[usize]) -> i64 {
    let mut total: i64 = 0;
    for w in path.windows(2) {
        let a = lat.node_at(w[0]);
        let b = lat.node_at(w[1]);
        if w[0] != lat.bos_node() && w[1] != lat.eos_node() {
            total += model.transition_cost(a.rcattr, b.lcattr).unwrap() as i64;
        }
        total += b.wcost as i64;
    }
    total
}

#[test]
fn nbest_enumerates_all_distinct_paths_in_order_then_exhausts() {
    let mut entries = vec![entry("a", 0), entry("b", 0), entry("c", 0)];
    entries.push(entry("ab", 0));
    entries.push(entry("bc", 0));
    let model = Model::new(entries, vec![1], 1, 1, info());
    let mut lat = build(&model, "abc");
    let mut nb = NBest::new(&mut lat, &model).expect("nbest failed");
    let mut seen: Vec<Vec<usize>> = Vec::new();
    let mut costs: Vec<i64> = Vec::new();
    while let Some(p) = nb.next_path(&lat, &model) {
        costs.push(path_cost(&lat, &model, &p));
        assert!(!seen.contains(&p), "a path was repeated");
        seen.push(p);
    }
    // a|b|c, ab|c, a|bc
    assert_eq!(seen.len(), 3);
    assert_eq!(costs, vec![1, 1, 2]);
    for w in costs.windows(2) {
        assert!(w[0] <= w[1], "costs must not decrease");
    }
    // once exhausted, it stays exhausted
    assert!(nb.next_path(&lat, &model).is_none());
}

#[test]
fn unknown_word_fallback_keeps_the_lattice_connected() {
    let model = Model::new(Vec::new(), vec![0], 1, 1, info());
    let mut lat = build(&model, "ab9");
    let s = search(&mut lat, &model).expect("search failed");
    // "ab" is one letter run, "9" a digit run: two unknown nodes
    assert_eq!(s.path.len(), 4);
    let first = lat.node_at(s.path[1]);
    assert_eq!(first.begin, 0);
    assert_eq!(first.length, 2);
    assert!(matches!(first.stat, NodeStat::Unk));
}

#[test]
fn empty_input_builds_a_two_node_lattice() {
    let model = unit_model();
    let mut lat = build(&model, "");
    assert_eq!(lat.size(), 0);
    assert_eq!(lat.node_count(), 2);
    let s = search(&mut lat, &model).expect("search failed");
    assert_eq!(s.total, 0);
    assert_eq!(s.path.len(), 2);
}

#[test]
fn forced_feature_span_appears_on_the_best_path() {
    let model = unit_model();
    let mut lat = Lattice::new();
    lat.set_sentence(b"abc".to_vec());
    lat.set_feature_constraint(1, 3, "FORCED".to_string());
    lat.build(&model).expect("build failed");
    let s = search(&mut lat, &model).expect("search failed");
    let mut hits = 0;
    for &id in &s.path {
        let n = lat.node_at(id);
        if n.begin == 1 && n.length == 2 {
            assert_eq!(n.feature, "FORCED");
            hits += 1;
        }
    }
    assert_eq!(hits, 1, "exactly one node must cover the forced span");
}

#[test]
fn overlapping_feature_constraints_conflict() {
    let model = unit_model();
    let mut lat = Lattice::new();
    lat.set_sentence(b"abc".to_vec());
    lat.set_feature_constraint(0, 2, "X".to_string());
    lat.set_feature_constraint(1, 3, "Y".to_string());
    let r = lat.build(&model);
    assert!(matches!(r, Err(MecabError::ConstraintConflict { .. })));
    assert_eq!(lat.what(), "constraints contradict each other");
}

#[test]
fn inside_token_everywhere_starves_a_position() {
    let model = unit_model();
    let mut lat = Lattice::new();
    lat.set_sentence(b"ab".to_vec());
    // position 1 may not be a node edge, and no entry spans both bytes
    lat.set_boundary_constraint(1, BoundaryType::InsideToken);
    let r = lat.build(&model);
    assert!(matches!(r, Err(MecabError::LatticeConstructionError { pos: 0 })));
}

#[test]
fn boundary_constraint_prunes_the_long_entry() {
    let mut entries = vec![entry("a", 0), entry("b", 0)];
    entries.push(entry("ab", -10));
    let model = Model::new(entries, vec![1], 1, 1, info());
    let mut lat = Lattice::new();
    lat.set_sentence(b"ab".to_vec());
    lat.set_boundary_constraint(1, BoundaryType::TokenBoundary);
    lat.build(&model).expect("build failed");
    let s = search(&mut lat, &model).expect("search failed");
    // without the constraint the combined entry would win at cost -10
    assert_eq!(s.total, 1);
    assert_eq!(s.path.len(), 4);
}

#[test]
fn unloaded_model_reports_dictionary_unavailable() {
    // matrix length does not match the declared table size
    let model = Model::new(Vec::new(), vec![0, 0, 0], 2, 2, info());
    assert!(!model.is_available());
    let mut lat = Lattice::new();
    lat.set_sentence(b"a".to_vec());
    let r = lat.build(&model);
    assert!(matches!(r, Err(MecabError::DictionaryUnavailable)));
}

#[test]
fn out_of_range_category_is_rejected() {
    let model = unit_model();
    assert!(matches!(
        model.transition_cost(1, 0),
        Err(MecabError::InvalidCategoryId { right_id: 1, left_id: 0 })
    ));
    assert_eq!(model.transition_cost(0, 0).unwrap(), 1);
}

#[test]
fn forward_and_backward_costs_meet_in_the_middle() {
    let model = unit_model();
    let mut lat = build(&model, "abc");
    let s = search(&mut lat, &model).expect("search failed");
    // on every best-path node the arrival and remaining costs sum to the total
    for &id in &s.path {
        assert!(s.reach[id] && s.breach[id]);
        assert_eq!(s.cost[id] + s.bcost[id], s.total);
    }
}

#[test]
fn dictionary_info_chain_walks_in_order() {
    let usr = DictionaryInfo::new("usr.dic".to_string(), "utf-8".to_string(), 1, 1, 1, 1, 102, None);
    let sys = DictionaryInfo::new("sys.dic".to_string(), "utf-8".to_string(), 3, 0, 1, 1, 102, Some(usr));
    let second = sys.next().expect("chain too short");
    assert_eq!(second.filename, "usr.dic");
    assert!(second.next().is_none());
    let mut iter = sys.iter();
    let a = iter.next().unwrap();
    let b = iter.next().unwrap();
    assert_eq!(a.filename, "sys.dic");
    assert_eq!(b.filename, "usr.dic");
    assert!(iter.next().is_none());
}

#[test]
fn request_type_flags_combine() {
    let mut lat = Lattice::new();
    assert_eq!(lat.request_type(), mecab::REQUEST_ONE_BEST);
    lat.add_request_type(mecab::REQUEST_NBEST);
    assert!(lat.has_request_type(mecab::REQUEST_NBEST));
    assert!(lat.has_request_type(mecab::REQUEST_ONE_BEST | mecab::REQUEST_NBEST));
    lat.remove_request_type(mecab::REQUEST_ONE_BEST);
    assert!(!lat.has_request_type(mecab::REQUEST_ONE_BEST));
    lat.set_request_type(mecab::REQUEST_MARGINAL_PROB);
    assert_eq!(lat.request_type(), mecab::REQUEST_MARGINAL_PROB);
}

#[test]
fn constraint_accessors_round_trip() {
    let mut lat = Lattice::new();
    lat.set_sentence(b"abcd".to_vec());
    assert!(!lat.has_constraint());
    lat.set_boundary_constraint(2, BoundaryType::TokenBoundary);
    assert!(lat.has_constraint());
    assert!(matches!(lat.boundary_constraint(2), BoundaryType::TokenBoundary));
    lat.set_feature_constraint(0, 2, "N".to_string());
    let f = lat.feature_constraint(1).expect("span should cover position 1");
    assert_eq!(f.begin, 0);
    assert_eq!(f.end, 2);
    assert_eq!(f.feature, "N");
    lat.clear();
    assert!(!lat.has_constraint());
    assert_eq!(lat.sentence().len(), 0);
}

#[test]
fn lookup_returns_every_matching_entry() {
    let model = unit_model();
    let cands = model.lookup(&b"abc".to_vec(), 1).expect("lookup failed");
    assert_eq!(cands.len(), 1);
    assert_eq!(cands[0].length, 1);
    assert_eq!(cands[0].feature, "w:b");
    assert!(matches!(cands[0].stat, NodeStat::Nor));
}

#[test]
fn size_is_the_sentence_byte_length() {
    let model = unit_model();
    let mut lat = Lattice::new();
    assert_eq!(lat.size(), 0);
    lat.set_sentence(b"abc".to_vec());
    assert_eq!(lat.size(), 3);
    lat.build(&model).expect("build failed");
    assert_eq!(lat.size(), 3);
    assert!(lat.is_available());
    lat.clear();
    assert_eq!(lat.size(), 0);
    assert!(!lat.is_available());
}

#[test]
fn search_records_its_outcome_for_diagnosis() {
    // a model whose table covers two categories on each side
    let wide = Model::new(
        vec![Entry {
            surface: b"a".to_vec(),
            lcattr: 1,
            rcattr: 1,
            posid: 0,
            wcost: 0,
            feature: "w:a".to_string(),
        }],
        vec![1, 1, 1, 1],
        2,
        2,
        info(),
    );
    let mut lat = build(&wide, "a");
    // searching with a narrower model is a lattice/model mismatch
    let narrow = unit_model();
    let r = search(&mut lat, &narrow);
    assert!(matches!(r, Err(MecabError::InvalidCategoryId { right_id: 1, left_id: 1 })));
    assert_eq!(lat.what(), "context category id out of range");
    // a successful search clears the diagnostic again
    search(&mut lat, &wide).expect("search failed");
    assert_eq!(lat.what(), "");
}

#[test]
fn dictionary_metadata_survives_loading() {
    let model = unit_model();
    let di = model.dictionary_info();
    assert_eq!(di.filename, "sys.dic");
    assert_eq!(di.charset, "utf-8");
    assert!(di.next().is_none());
}
