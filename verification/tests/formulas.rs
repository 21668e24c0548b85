use temporal_planner::error::ErrorKind;
use temporal_planner::formula::{parse_formula, PDDLFormula, Relation};
use temporal_planner::sexpr::read_expressions;
use temporal_planner::temporal_task::{
    extract_conditions_from_formula, extract_effects_from_formula, extract_temporal_conditions,
    extract_temporal_effects,
};

fn parse(text: &str) -> Result<PDDLFormula, ErrorKind> {
    let trees = read_expressions(text).unwrap();
    assert_eq!(trees.len(), 1);
    parse_formula(&trees[0]).map_err(|e| e.kind)
}

fn show(f: &PDDLFormula) -> String {
    match f {
        PDDLFormula::Predicate { name, args, negated } => {
            format!("{}{}[{}]", if *negated { "!" } else { "" }, name, args.join(","))
        }
        PDDLFormula::And(parts) => format!("and({})", parts.iter().map(show).collect::<Vec<_>>().join(" ")),
        PDDLFormula::Or(parts) => format!("or({})", parts.iter().map(show).collect::<Vec<_>>().join(" ")),
        PDDLFormula::Not(inner) => format!("not({})", show(inner)),
        PDDLFormula::AtStart(inner) => format!("start({})", show(inner)),
        PDDLFormula::AtEnd(inner) => format!("end({})", show(inner)),
        PDDLFormula::OverAll(inner) => format!("all({})", show(inner)),
        PDDLFormula::DurationConstraint { relation, constant } => {
            format!("duration({:?},{:?})", relation, constant)
        }
    }
}

fn literals(names: Vec<(String, Vec<String>, bool)>) -> Vec<String> {
    names
        .into_iter()
        .map(|(p, a, n)| format!("{}{}[{}]", if n { "!" } else { "" }, p, a.join(",")))
        .collect()
}

fn conditions(text: &str) -> Vec<String> {
    let f = parse(text).unwrap();
    literals(
        extract_conditions_from_formula(&f)
            .into_iter()
            .map(|c| (c.predicate, c.args, c.is_negative))
            .collect(),
    )
}

fn effects(text: &str) -> Vec<String> {
    let f = parse(text).unwrap();
    literals(
        extract_effects_from_formula(&f)
            .into_iter()
            .map(|e| (e.predicate, e.args, e.is_delete))
            .collect(),
    )
}

#[test]
fn head_symbol_decides_the_variant() {
    assert_eq!(show(&parse("(p a b)").unwrap()), "p[a,b]");
    assert_eq!(show(&parse("(and (p) (q x))").unwrap()), "and(p[] q[x])");
    assert_eq!(show(&parse("(or (p) (q))").unwrap()), "or(p[] q[])");
    assert_eq!(show(&parse("(not (p))").unwrap()), "not(p[])");
    assert_eq!(show(&parse("(at start (p))").unwrap()), "start(p[])");
    assert_eq!(show(&parse("(at end (p))").unwrap()), "end(p[])");
    assert_eq!(show(&parse("(over all (p))").unwrap()), "all(p[])");
    assert_eq!(show(&parse("()").unwrap()), "and()");
}

#[test]
fn keywords_match_whatever_their_case() {
    assert_eq!(show(&parse("(AND (p) (Not (q)))").unwrap()), "and(p[] not(q[]))");
    assert_eq!(show(&parse("(AT Start (p))").unwrap()), "start(p[])");
    assert_eq!(show(&parse("(Over ALL (P))").unwrap()), "all(P[])");
}

#[test]
fn at_and_over_are_predicates_without_a_formula() {
    assert_eq!(show(&parse("(at robot depot)").unwrap()), "at[robot,depot]");
    assert_eq!(show(&parse("(at start)").unwrap()), "at[start]");
    assert_eq!(show(&parse("(over x)").unwrap()), "over[x]");
    assert_eq!(show(&parse("(at start (at start))").unwrap()), "start(at[start])");
}

#[test]
fn unknown_temporal_operator_names_the_qualifier() {
    let trees = read_expressions("(at middle (p))").unwrap();
    let err = parse_formula(&trees[0]).unwrap_err();
    assert_eq!(err.kind, ErrorKind::UnknownTemporalOperator);
    assert_eq!(err.token.as_deref(), Some("middle"));
    assert_eq!(parse("(over some (p))").unwrap_err(), ErrorKind::UnknownTemporalOperator);
    assert_eq!(parse("(over start (p))").unwrap_err(), ErrorKind::UnknownTemporalOperator);
}

#[test]
fn duration_constraints() {
    match parse("(= ?duration 5.0)").unwrap() {
        PDDLFormula::DurationConstraint { relation, constant } => {
            assert_eq!(relation, Relation::Equal);
            assert_eq!(constant, Some(5_000_000));
        }
        other => panic!("{}", show(&other)),
    }
    match parse("(<= ?duration 2.5)").unwrap() {
        PDDLFormula::DurationConstraint { relation, constant } => {
            assert_eq!(relation, Relation::AtMost);
            assert_eq!(constant, Some(2_500_000));
        }
        other => panic!("{}", show(&other)),
    }
    match parse("(>= ?duration (* 2 (fuel)))").unwrap() {
        PDDLFormula::DurationConstraint { relation, constant } => {
            assert_eq!(relation, Relation::AtLeast);
            assert_eq!(constant, None);
        }
        other => panic!("{}", show(&other)),
    }
    match parse("(= ?x 5)").unwrap() {
        PDDLFormula::DurationConstraint { constant, .. } => assert_eq!(constant, None),
        other => panic!("{}", show(&other)),
    }
}

#[test]
fn malformed_formulas() {
    assert_eq!(parse("p").unwrap_err(), ErrorKind::MalformedSyntax);
    assert_eq!(parse("((p))").unwrap_err(), ErrorKind::MalformedSyntax);
    assert_eq!(parse("(not)").unwrap_err(), ErrorKind::MalformedSyntax);
    assert_eq!(parse("(not (p) (q))").unwrap_err(), ErrorKind::MalformedSyntax);
    assert_eq!(parse("(and p)").unwrap_err(), ErrorKind::MalformedSyntax);
    assert_eq!(parse("(p (q))").unwrap_err(), ErrorKind::MalformedSyntax);
    assert_eq!(parse("(and (p) (at never (q)))").unwrap_err(), ErrorKind::UnknownTemporalOperator);
}

#[test]
fn first_fault_in_reading_order_wins() {
    assert_eq!(parse("(and (at never (q)) (p (x)))").unwrap_err(), ErrorKind::UnknownTemporalOperator);
    assert_eq!(parse("(and (p (x)) (at never (q)))").unwrap_err(), ErrorKind::MalformedSyntax);
}

#[test]
fn conditions_are_listed_in_reading_order() {
    assert_eq!(
        conditions("(and (p a) (not (q)) (or (r) (s)) (at end (t)) (= ?duration 1))"),
        vec!["p[a]", "!q[]", "r[]", "s[]", "t[]"]
    );
    assert_eq!(conditions("(not (and (p) (q)))"), Vec::<String>::new());
}

#[test]
fn effects_ignore_disjunctions_and_over_all() {
    assert_eq!(
        effects("(and (p) (not (q)) (or (r) (s)) (at start (t)) (over all (u)) (at end (not (v))))"),
        vec!["p[]", "!q[]", "t[]", "!v[]"]
    );
}

#[test]
fn temporal_operator_is_pushed_into_each_conjunct() {
    let f = parse("(and (at start (and (p) (not (q)))) (over all (r)) (at end (s)) (t))").unwrap();
    let (start, over_all, end) = extract_temporal_conditions(&f);
    let names = |v: Vec<temporal_planner::Condition>| -> Vec<String> {
        literals(v.into_iter().map(|c| (c.predicate, c.args, c.is_negative)).collect())
    };
    assert_eq!(names(start), vec!["p[]", "!q[]", "t[]"]);
    assert_eq!(names(over_all), vec!["r[]"]);
    assert_eq!(names(end), vec!["s[]"]);
}

#[test]
fn every_condition_is_in_exactly_one_group() {
    let text = "(and (at start (p)) (over all (and (q) (at end (z)))) (at end (r)) (or (at end (s)) (t)) (not (u)))";
    let f = parse(text).unwrap();
    let (start, over_all, end) = extract_temporal_conditions(&f);
    let all = extract_conditions_from_formula(&f);
    assert_eq!(start.len() + over_all.len() + end.len(), all.len());
    let mut grouped: Vec<String> = start
        .iter()
        .chain(over_all.iter())
        .chain(end.iter())
        .map(|c| format!("{}{}", c.is_negative, c.predicate))
        .collect();
    let mut listed: Vec<String> = all.iter().map(|c| format!("{}{}", c.is_negative, c.predicate)).collect();
    grouped.sort();
    listed.sort();
    assert_eq!(grouped, listed);
    let over: Vec<&str> = over_all.iter().map(|c| c.predicate.as_str()).collect();
    assert_eq!(over, vec!["q", "z"]);
}

#[test]
fn effects_without_operator_belong_to_the_end() {
    let f = parse("(and (p) (at start (not (q))) (at end (r)) (over all (s)))").unwrap();
    let (start, end) = extract_temporal_effects(&f);
    let all = extract_effects_from_formula(&f);
    assert_eq!(start.len() + end.len(), all.len());
    assert_eq!(start.iter().map(|e| e.predicate.as_str()).collect::<Vec<_>>(), vec!["q"]);
    assert!(start[0].is_delete);
    assert_eq!(end.iter().map(|e| e.predicate.as_str()).collect::<Vec<_>>(), vec!["p", "r"]);
}
