use std::sync::Arc;

use handlebars::Handlebars;
use zinn::error::ZinnError;
use zinn::job::{Foreach, InnerJobRealization, JobDependency, JobDescription, JobRealization};
use zinn::queue::Queue;
use zinn::setup::{enqueue_targets, render_constants};
use zinn::template::render_component;

fn engine() -> Handlebars<'static> {
    let mut hb = Handlebars::new();
    hb.set_strict_mode(true);
    hb.register_escape_fn(handlebars::no_escape);
    hb
}

fn desc(run: &str) -> JobDescription {
    JobDescription {
        run: run.to_string(),
        requires: vec![],
        args: vec![],
        defaults: vec![],
        inputs: None,
        input_list: vec![],
        outputs: None,
        output_list: vec![],
        interactive: false,
    }
}

fn dep(job: &str) -> JobDependency {
    JobDependency { job: job.to_string(), with: vec![], foreach: None }
}

fn realize(table: &Vec<(String, JobDescription)>, name: &str, params: &Vec<(String, String)>) -> Result<JobRealization, ZinnError> {
    let d = &table.iter().find(|(n, _)| n == name).unwrap().1;
    d.realize(name, table, &mut engine(), &vec![], params)
}

#[test]
fn linear_dependencies_are_realized() {
    let mut b = desc("echo B");
    b.requires.push(dep("a"));
    let mut default = desc("");
    default.requires.push(dep("b"));
    let table = vec![("a".to_string(), desc("echo A")), ("b".to_string(), b), ("default".to_string(), default)];
    let job = realize(&table, "default", &vec![]).unwrap();
    assert_eq!(job.name(), "default");
    let deps = job.dependencies();
    assert_eq!(deps.len(), 1);
    assert_eq!(deps[0].name(), "b");
    assert_eq!(deps[0].cmd(), "echo B");
    assert_eq!(deps[0].dependencies()[0].cmd(), "echo A");
    let trans = job.transitive_dependencies();
    let names: Vec<&str> = trans.iter().map(|j| j.name()).collect();
    assert_eq!(names, vec!["a", "b"]);
}

#[test]
fn foreach_expands_once_per_item() {
    let mut greet = desc("echo hi {{who}}");
    greet.args.push("who".to_string());
    let mut default = desc("");
    default.requires.push(JobDependency {
        job: "greet".to_string(),
        with: vec![],
        foreach: Some(Foreach { var: "who".to_string(), values: "alice bob  carol".to_string() }),
    });
    let table = vec![("greet".to_string(), greet), ("default".to_string(), default)];
    let job = realize(&table, "default", &vec![]).unwrap();
    let deps = job.dependencies();
    assert_eq!(deps.len(), 3);
    let cmds: Vec<&str> = deps.iter().map(|d| d.cmd()).collect();
    assert_eq!(cmds, vec!["echo hi alice", "echo hi bob", "echo hi carol"]);
    assert_eq!(deps[1].display(), "[greet] bob");
    assert_eq!(deps[0].param_values(), &vec!["alice".to_string()]);
}

#[test]
fn foreach_over_empty_list_adds_nothing() {
    let mut default = desc("");
    default.requires.push(JobDependency {
        job: "a".to_string(),
        with: vec![],
        foreach: Some(Foreach { var: "x".to_string(), values: "   ".to_string() }),
    });
    let table = vec![("a".to_string(), desc("true")), ("default".to_string(), default)];
    assert_eq!(realize(&table, "default", &vec![]).unwrap().dependencies().len(), 0);
}

#[test]
fn foreach_overrides_with_entry() {
    let mut p = desc("{{x}}-{{y}}");
    p.args = vec!["x".to_string(), "y".to_string()];
    let mut default = desc("");
    default.requires.push(JobDependency {
        job: "p".to_string(),
        with: vec![("x".to_string(), "w".to_string()), ("y".to_string(), "{{c}}".to_string())],
        foreach: Some(Foreach { var: "x".to_string(), values: "1 2".to_string() }),
    });
    let table = vec![("p".to_string(), p), ("default".to_string(), default)];
    let d = &table[1].1;
    let consts = vec![("c".to_string(), "K".to_string())];
    let job = d.realize("default", &table, &mut engine(), &consts, &vec![]).unwrap();
    let cmds: Vec<String> = job.dependencies().iter().map(|d| d.cmd().to_string()).collect();
    assert_eq!(cmds, vec!["1-K".to_string(), "2-K".to_string()]);
}

#[test]
fn missing_argument_fails() {
    let mut p = desc("echo {{x}}");
    p.args.push("x".to_string());
    let mut default = desc("");
    default.requires.push(dep("p"));
    let table = vec![("p".to_string(), p), ("default".to_string(), default)];
    match realize(&table, "default", &vec![]) {
        Err(ZinnError::MissingArgument(a)) => assert_eq!(a, "x"),
        other => panic!("unexpected {:?}", other.map(|_| ())),
    }
}

#[test]
fn defaults_and_parameters() {
    let mut p = desc("echo {{x}} {{y}}");
    p.args = vec!["x".to_string(), "y".to_string()];
    p.defaults = vec![("x".to_string(), "dx".to_string()), ("y".to_string(), "dy".to_string())];
    let table = vec![("p".to_string(), p)];
    let job = realize(&table, "p", &vec![("y".to_string(), "py".to_string())]).unwrap();
    assert_eq!(job.cmd(), "echo dx py");
    assert_eq!(job.display(), "[p] dx py");
}

#[test]
fn dependency_not_found() {
    let mut default = desc("");
    default.requires.push(dep("nope"));
    let table = vec![("default".to_string(), default)];
    match realize(&table, "default", &vec![]) {
        Err(ZinnError::DependencyNotFound(n)) => assert_eq!(n, "nope"),
        other => panic!("unexpected {:?}", other.map(|_| ())),
    }
}

#[test]
fn cyclic_dependencies_are_cut_off() {
    let mut a = desc("");
    a.requires.push(dep("a"));
    let table = vec![("a".to_string(), a)];
    assert!(matches!(realize(&table, "a", &vec![]), Err(ZinnError::DependencyTooDeep(_))));
}

#[test]
fn files_are_rendered_and_split() {
    let mut p = desc("cc");
    p.inputs = Some("{{src}} b.c".to_string());
    p.input_list = vec!["my file.h".to_string()];
    p.outputs = Some(" out ".to_string());
    p.output_list = vec!["{{src}}.o".to_string()];
    let table = vec![("p".to_string(), p)];
    let d = &table[0].1;
    let consts = vec![("src".to_string(), "a.c".to_string())];
    let job = d.realize("p", &table, &mut engine(), &consts, &vec![]).unwrap();
    assert_eq!(job.inputs(), &vec!["a.c".to_string(), "b.c".to_string(), "my file.h".to_string()]);
    assert_eq!(job.outputs(), &vec!["out".to_string(), "a.c.o".to_string()]);
}

#[test]
fn newlines_are_stripped_from_names() {
    let table = vec![("a\nb".to_string(), desc("x"))];
    let job = realize(&table, "a\nb", &vec![]).unwrap();
    assert_eq!(job.name(), "ab");
}

#[test]
fn template_errors_surface() {
    let table = vec![("p".to_string(), desc("echo {{undefined}}"))];
    assert!(matches!(realize(&table, "p", &vec![]), Err(ZinnError::TemplateError(_))));
    let table = vec![("p".to_string(), desc("{{#if}}"))];
    assert!(matches!(realize(&table, "p", &vec![]), Err(ZinnError::TemplateError(_))));
}

#[test]
fn colon_in_template_path_is_rejected() {
    let table = vec![("a:b".to_string(), desc("x"))];
    match realize(&table, "a:b", &vec![]) {
        Err(ZinnError::ColonInTemplateName(n)) => assert_eq!(n, "a:b"),
        other => panic!("unexpected {:?}", other.map(|_| ())),
    }
}

#[test]
fn rendering_is_cached_by_path() {
    let mut hb = engine();
    let path = vec!["jobs".to_string(), "x".to_string(), "run".to_string()];
    let vars = vec![("v".to_string(), "1".to_string())];
    assert_eq!(render_component(&path, "a{{v}}", &mut hb, &vars).unwrap(), "a1");
    assert!(hb.get_template("jobs:x:run").is_some());
    // the template registered first is reused under the same path
    assert_eq!(render_component(&path, "b{{v}}", &mut hb, &vars).unwrap(), "a1");
}

#[test]
fn constants_render_in_order() {
    let consts = vec![
        ("a".to_string(), "1".to_string()),
        ("b".to_string(), "{{a}}2".to_string()),
        ("c".to_string(), "{{b}}3".to_string()),
    ];
    let mut hb = engine();
    let rendered = render_constants(&consts, &mut hb).unwrap();
    assert_eq!(rendered[2], ("c".to_string(), "123".to_string()));
    let table = vec![("default".to_string(), desc("echo {{c}}"))];
    let job = table[0].1.realize("default", &table, &mut hb, &rendered, &vec![]).unwrap();
    assert_eq!(job.cmd(), "echo 123");
}

#[test]
fn later_constant_is_not_visible_earlier() {
    let consts = vec![("a".to_string(), "{{b}}".to_string()), ("b".to_string(), "1".to_string())];
    assert!(matches!(render_constants(&consts, &mut engine()), Err(ZinnError::TemplateError(_))));
}

#[test]
fn same_realization_is_equal_and_deduplicated() {
    let mut b = desc("echo B");
    b.requires.push(dep("a"));
    let table = vec![("a".to_string(), desc("echo A")), ("b".to_string(), b)];
    let j1 = realize(&table, "b", &vec![]).unwrap();
    let j2 = realize(&table, "b", &vec![]).unwrap();
    assert!(zinn::job::same_job(&j1, &j2));
    let mut q = Queue::new();
    q.enqueue(j1);
    q.enqueue(j2);
    assert_eq!(q.len(), 1);
}

#[test]
fn targets_enqueue_with_dependencies() {
    let mut b = desc("echo B");
    b.requires.push(dep("a"));
    let mut c = desc("echo C");
    c.requires.push(dep("a"));
    let table = vec![("a".to_string(), desc("echo A")), ("b".to_string(), b), ("c".to_string(), c)];
    let mut q = Queue::new();
    let targets = vec!["b".to_string(), "c".to_string()];
    enqueue_targets(&mut q, &targets, &table, &mut engine(), &vec![], &vec![]).unwrap();
    assert_eq!(q.len(), 3);
    let mut q = Queue::new();
    let missing = vec!["zzz".to_string()];
    match enqueue_targets(&mut q, &missing, &table, &mut engine(), &vec![], &vec![]) {
        Err(ZinnError::JobNotFound(n)) => assert_eq!(n, "zzz"),
        other => panic!("unexpected {:?}", other),
    }
}

#[test]
fn job_built_by_hand() {
    let a = Arc::new(InnerJobRealization::new("a".into(), "true".into(), true, vec![], vec![], vec![], vec![]));
    assert!(a.is_interactive());
    assert_eq!(a.display(), "[a]");
}

#[test]
fn foreach_bindings_bind_each_item() {
    let base = vec![("x".to_string(), "0".to_string())];
    let b = zinn::job::foreach_bindings(&base, &"who".to_string(), " a  b ");
    assert_eq!(b.len(), 2);
    assert_eq!(b[0], vec![("x".to_string(), "0".to_string()), ("who".to_string(), "a".to_string())]);
    assert_eq!(b[1][1], ("who".to_string(), "b".to_string()));
    assert_eq!(zinn::job::foreach_bindings(&base, &"who".to_string(), "").len(), 0);
}

#[test]
fn later_binding_hides_earlier() {
    let mut v = vec![("k".to_string(), "1".to_string())];
    zinn::vars::set_var(&mut v, "k".to_string(), "2".to_string());
    assert_eq!(zinn::vars::get_var(&v, "k"), Some(&"2".to_string()));
    assert_eq!(zinn::vars::get_var(&v, "z"), None);
}

#[test]
fn unknown_job_has_no_state() {
    let q = Queue::new();
    let j = InnerJobRealization::new("a".into(), "".into(), false, vec![], vec![], vec![], vec![]);
    assert_eq!(q.state(&j), None);
    assert!(!q.has_failed());
    assert_eq!(q.len(), 0);
}

#[test]
fn missing_argument_of_a_dependency_is_reported() {
    // the Zinnfile of scenario S5
    let mut p = desc("echo {{x}}");
    p.args.push("x".to_string());
    let mut default = desc("");
    default.requires.push(dep("p"));
    let table = vec![("p".to_string(), p), ("default".to_string(), default)];
    let d = &table[1].1;
    match d.realize("default", &table, &mut engine(), &vec![], &vec![]) {
        Err(ZinnError::MissingArgument(a)) => assert_eq!(a, "x"),
        other => panic!("unexpected {:?}", other.map(|_| ())),
    }
}

#[test]
fn colon_in_name_fails_before_dependencies() {
    let mut a = desc("x");
    a.requires.push(dep("nope"));
    let table = vec![("a:b".to_string(), a)];
    match realize(&table, "a:b", &vec![]) {
        Err(ZinnError::ColonInTemplateName(n)) => assert_eq!(n, "a:b"),
        other => panic!("unexpected {:?}", other.map(|_| ())),
    }
}

#[test]
fn with_values_reach_the_child() {
    let mut p = desc("echo {{x}}");
    p.args.push("x".to_string());
    let mut default = desc("");
    default.requires.push(JobDependency {
        job: "p".to_string(),
        with: vec![("x".to_string(), "{{c}}!".to_string())],
        foreach: None,
    });
    let table = vec![("p".to_string(), p), ("default".to_string(), default)];
    let consts = vec![("c".to_string(), "v".to_string())];
    let job = table[1].1.realize("default", &table, &mut engine(), &consts, &vec![]).unwrap();
    assert_eq!(job.dependencies()[0].param_values(), &vec!["v!".to_string()]);
    assert_eq!(job.dependencies()[0].cmd(), "echo v!");
}

#[test]
fn constants_with_colon_are_rejected() {
    let consts = vec![("a:b".to_string(), "1".to_string())];
    match render_constants(&consts, &mut engine()) {
        Err(ZinnError::ColonInTemplateName(n)) => assert_eq!(n, "a:b"),
        other => panic!("unexpected {:?}", other),
    }
    assert_eq!(render_constants(&vec![], &mut engine()).unwrap().len(), 0);
}

#[test]
fn constants_are_registered_by_path() {
    let mut hb = engine();
    render_constants(&vec![("a".to_string(), "1".to_string())], &mut hb).unwrap();
    assert!(hb.get_template("constants:a").is_some());
}

#[test]
fn no_targets_leaves_the_queue() {
    let mut q = Queue::new();
    enqueue_targets(&mut q, &vec![], &vec![], &mut engine(), &vec![], &vec![]).unwrap();
    assert_eq!(q.len(), 0);
}

#[test]
fn transitive_dependencies_come_first() {
    let a = Arc::new(InnerJobRealization::new("a".into(), "".into(), false, vec![], vec![], vec![], vec![]));
    let b = Arc::new(InnerJobRealization::new("b".into(), "".into(), false, vec![], vec![a.clone()], vec![], vec![]));
    let c = InnerJobRealization::new("c".into(), "".into(), false, vec![], vec![b.clone(), a.clone()], vec![], vec![]);
    let trans = c.transitive_dependencies();
    let names: Vec<&str> = trans.iter().map(|j| j.name()).collect();
    assert_eq!(names, vec!["a", "b", "a"]);
}
