use storage_engine::access::Access;
use storage_engine::group::Group;
use storage_engine::paginate::{EngineError, Filter, HasFields, Operator, Paginator};

fn grp(id: &str, name: &str, owner: &str, public: bool) -> Group {
    Group {
        id: id.to_string(),
        name: name.to_string(),
        members: Vec::new(),
        owner: owner.to_string(),
        public,
    }
}

fn eleven() -> Vec<Group> {
    let mut v = Vec::new();
    for i in 0..11 {
        v.push(grp(&format!("g{}", i), &format!("name{}", i), "alice", false));
    }
    v
}

fn filter(field: &str, op: Operator, value: &str) -> Filter {
    Filter {
        field: field.to_string(),
        operator: op,
        value: value.to_string(),
        between: None,
        values: None,
    }
}

#[test]
fn page_two_of_eleven() {
    let p = Paginator::new(eleven(), Vec::new());
    let r = p.get(2, 5).unwrap();
    assert_eq!(r.curr_page, 2);
    assert_eq!(r.total_data, 5);
    assert_eq!(r.data.len(), 5);
    assert_eq!(r.data[0].id, "g5");
    assert_eq!(r.data[4].id, "g9");
}

#[test]
fn page_past_the_end_is_clamped() {
    let p = Paginator::new(eleven(), Vec::new());
    let r = p.get(5, 5).unwrap();
    assert_eq!(r.curr_page, 2);
    assert_eq!(r.total_data, 0);
    assert!(r.data.is_empty());
}

#[test]
fn oversized_page_clamps_the_page_number_to_zero() {
    // With eleven records and room for a hundred, the total page count by
    // integer division is zero, so the reported page number clamps to zero
    // while the whole collection still comes back.
    let p = Paginator::new(eleven(), Vec::new());
    let r = p.get(1, 100).unwrap();
    assert_eq!(r.curr_page, 0);
    assert_eq!(r.total_data, 11);
}

#[test]
fn zero_page_size_is_rejected() {
    let p = Paginator::new(eleven(), Vec::new());
    assert!(matches!(p.get(1, 0), Err(EngineError::InvalidOperation)));
    assert!(matches!(p.get(0, 5), Err(EngineError::InvalidOperation)));
}

#[test]
fn get_is_idempotent() {
    let p = Paginator::new(
        eleven(),
        vec![filter("name", Operator::ILIKE, "name")],
    );
    let a = p.get(2, 3).unwrap();
    let b = p.get(2, 3).unwrap();
    assert_eq!(a.curr_page, b.curr_page);
    assert_eq!(a.total_data, b.total_data);
    assert_eq!(a.data.len(), b.data.len());
    for (x, y) in a.data.iter().zip(b.data.iter()) {
        assert_eq!(x.id, y.id);
        assert_eq!(x.name, y.name);
    }
}

#[test]
fn filters_run_after_paging() {
    // The filter matches only "name5", which sits on the second page:
    // the page is cut first, then filtered, so the reported count is the
    // filtered count within that page alone.
    let p = Paginator::new(
        eleven(),
        vec![filter("name", Operator::EQUAL, "name5")],
    );
    let r = p.get(2, 5).unwrap();
    assert_eq!(r.total_data, 1);
    assert_eq!(r.data.len(), 1);
    assert_eq!(r.data[0].id, "g5");
    // The same filter on the first page keeps nothing.
    let r1 = p.get(1, 5).unwrap();
    assert_eq!(r1.total_data, 0);
}

#[test]
fn equal_normalizes_both_sides() {
    let data = vec![grp("a", " NaMe0 ", "alice", false)];
    let p = Paginator::new(data, vec![filter("name", Operator::EQUAL, "name0")]);
    let r = p.get(1, 10).unwrap();
    assert_eq!(r.total_data, 1);

    let data = vec![grp("a", "name0", "alice", false)];
    let p = Paginator::new(
        data,
        vec![filter("name", Operator::EQUAL, "\tNAME0  ")],
    );
    let r = p.get(1, 10).unwrap();
    assert_eq!(r.total_data, 1);
}

#[test]
fn ordering_is_lexicographic_on_strings() {
    // "10" comes before "9" as text, though not as a number.
    let data = vec![grp("a", "10", "alice", false)];
    let p = Paginator::new(data, vec![filter("name", Operator::LESS_THAN, "9")]);
    assert_eq!(p.get(1, 10).unwrap().total_data, 1);

    let data = vec![grp("a", "10", "alice", false)];
    let p = Paginator::new(
        data,
        vec![filter("name", Operator::GREATER_THAN, "9")],
    );
    assert_eq!(p.get(1, 10).unwrap().total_data, 0);

    let data = vec![grp("a", "abc", "alice", false)];
    let p = Paginator::new(
        data,
        vec![filter("name", Operator::LESS_THAN_OR_EQUAL, "ABC")],
    );
    assert_eq!(p.get(1, 10).unwrap().total_data, 1);

    let data = vec![grp("a", "abc", "alice", false)];
    let p = Paginator::new(
        data,
        vec![filter("name", Operator::GREATER_THAN_OR_EQUAL, "abd")],
    );
    assert_eq!(p.get(1, 10).unwrap().total_data, 0);
}

#[test]
fn ilike_is_substring_containment() {
    let data = vec![grp("a", "Hello World", "alice", false)];
    let p = Paginator::new(data, vec![filter("name", Operator::ILIKE, "LO WO")]);
    assert_eq!(p.get(1, 10).unwrap().total_data, 1);

    let data = vec![grp("a", "Hello World", "alice", false)];
    let p = Paginator::new(data, vec![filter("name", Operator::NOT_ILIKE, "xyz")]);
    assert_eq!(p.get(1, 10).unwrap().total_data, 1);
}

#[test]
fn between_is_inclusive() {
    let mut f = filter("name", Operator::BETWEEN, "");
    f.between = Some(("b".to_string(), "d".to_string()));
    let data = vec![
        grp("1", "a", "alice", false),
        grp("2", "b", "alice", false),
        grp("3", "c", "alice", false),
        grp("4", "d", "alice", false),
        grp("5", "e", "alice", false),
    ];
    let p = Paginator::new(data, vec![f]);
    let r = p.get(1, 10).unwrap();
    assert_eq!(r.total_data, 3);
    assert_eq!(r.data[0].name, "b");
    assert_eq!(r.data[2].name, "d");
}

#[test]
fn not_between_with_ordered_bounds_keeps_nothing() {
    // The predicate asks for a value both below the lower bound and above
    // the upper one at once, so it never holds.
    for name in ["a", "b", "c", "d", "e", "", "zzz"] {
        let mut f = filter("name", Operator::NOT_BETWEEN, "");
        f.between = Some(("b".to_string(), "d".to_string()));
        let data = vec![grp("1", name, "alice", false)];
        let p = Paginator::new(data, vec![f]);
        assert_eq!(p.get(1, 10).unwrap().total_data, 0);
    }
}

#[test]
fn not_between_with_inverted_bounds_can_match() {
    // The literal predicate is "field below the lower bound and above the
    // upper bound": with bounds out of order a value strictly between them
    // satisfies both sides.
    let mut f = filter("name", Operator::NOT_BETWEEN, "");
    f.between = Some(("c".to_string(), "a".to_string()));
    let data = vec![grp("1", "b", "alice", false)];
    let p = Paginator::new(data, vec![f]);
    assert_eq!(p.get(1, 10).unwrap().total_data, 1);
}

#[test]
fn between_without_bounds_keeps_nothing() {
    let data = vec![grp("1", "c", "alice", false)];
    let p = Paginator::new(data, vec![filter("name", Operator::BETWEEN, "")]);
    assert_eq!(p.get(1, 10).unwrap().total_data, 0);
    let data = vec![grp("1", "c", "alice", false)];
    let p = Paginator::new(data, vec![filter("name", Operator::NOT_BETWEEN, "")]);
    assert_eq!(p.get(1, 10).unwrap().total_data, 0);
}

#[test]
fn in_with_empty_values_keeps_nothing() {
    let mut f = filter("name", Operator::IN, "");
    f.values = Some(Vec::new());
    let data = vec![grp("1", "c", "alice", false)];
    let p = Paginator::new(data, vec![f]);
    assert_eq!(p.get(1, 10).unwrap().total_data, 0);
    // Absent values behave the same.
    let data = vec![grp("1", "c", "alice", false)];
    let p = Paginator::new(data, vec![filter("name", Operator::IN, "")]);
    assert_eq!(p.get(1, 10).unwrap().total_data, 0);
}

#[test]
fn not_in_with_empty_values_keeps_everything() {
    let mut f = filter("name", Operator::NOT_IN, "");
    f.values = Some(Vec::new());
    let data = vec![grp("1", "c", "alice", false)];
    let p = Paginator::new(data, vec![f]);
    assert_eq!(p.get(1, 10).unwrap().total_data, 1);
    let data = vec![grp("1", "c", "alice", false)];
    let p = Paginator::new(data, vec![filter("name", Operator::NOT_IN, "")]);
    assert_eq!(p.get(1, 10).unwrap().total_data, 1);
}

#[test]
fn in_and_not_in_match_normalized_values() {
    let mut f = filter("name", Operator::IN, "");
    f.values = Some(vec![" ALPHA ".to_string(), "beta".to_string()]);
    let data = vec![
        grp("1", "alpha", "alice", false),
        grp("2", "gamma", "alice", false),
    ];
    let p = Paginator::new(data, vec![f]);
    let r = p.get(1, 10).unwrap();
    assert_eq!(r.total_data, 1);
    assert_eq!(r.data[0].name, "alpha");

    let mut f = filter("name", Operator::NOT_IN, "");
    f.values = Some(vec!["alpha".to_string()]);
    let data = vec![
        grp("1", "Alpha", "alice", false),
        grp("2", "gamma", "alice", false),
    ];
    let p = Paginator::new(data, vec![f]);
    let r = p.get(1, 10).unwrap();
    assert_eq!(r.total_data, 1);
    assert_eq!(r.data[0].name, "gamma");
}

#[test]
fn not_equal_and_unknown_fields() {
    let data = vec![grp("1", "x", "alice", false)];
    let p = Paginator::new(data, vec![filter("name", Operator::NOT_EQUAL, "y")]);
    assert_eq!(p.get(1, 10).unwrap().total_data, 1);
    // An unknown field reads as empty text, so it equals the empty value.
    let data = vec![grp("1", "x", "alice", false)];
    let p = Paginator::new(data, vec![filter("no_such_field", Operator::EQUAL, "  ")]);
    assert_eq!(p.get(1, 10).unwrap().total_data, 1);
}

#[test]
fn field_accessors_render_fields_as_text() {
    let g = grp("g1", "Team", "alice", true);
    assert_eq!(g.get_field("id"), "g1");
    assert_eq!(g.get_field("name"), "Team");
    assert_eq!(g.get_field("owner"), "alice");
    assert_eq!(g.get_field("public"), "true");
    assert_eq!(g.get_field("other"), "");
}

#[test]
fn normalize_value_trims_and_lowercases() {
    let r = Paginator::<Group>::normalize_value("  MiXeD Case\t".to_string());
    assert_eq!(r, "mixed case");
}

#[test]
fn filter_data_without_arguments_uses_own_state() {
    let p = Paginator::new(
        eleven(),
        vec![filter("name", Operator::ILIKE, "name1")],
    );
    let kept = p.filter_data(None, None);
    // name1 and name10 contain "name1".
    assert_eq!(kept.len(), 2);
    assert_eq!(kept[0].name, "name1");
    assert_eq!(kept[1].name, "name10");
}

#[test]
fn total_counts_the_whole_collection() {
    let p = Paginator::new(eleven(), Vec::new());
    assert_eq!(p.total(), 11);
}

#[test]
fn generate_id_is_one_past_the_count() {
    let mut m: std::collections::HashMap<u64, String> = std::collections::HashMap::new();
    assert_eq!(storage_engine::generate_id(&m), 1);
    m.insert(1, "a".to_string());
    m.insert(2, "b".to_string());
    m.insert(3, "c".to_string());
    assert_eq!(storage_engine::generate_id(&m), 4);
}

#[test]
fn capability_sets_have_the_fixed_contents() {
    assert_eq!(
        Access::all(),
        vec![Access::Admin, Access::Write, Access::Read, Access::Delete, Access::Public],
    );
    assert_eq!(Access::can_edit(), vec![Access::Admin, Access::Write]);
    assert_eq!(Access::admin_access(), vec![Access::Admin, Access::Delete]);
}
