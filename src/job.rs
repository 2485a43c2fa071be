//! Job templates as read from the Zinnfile, and the realized jobs that
//! expanding them yields.
use crate::error::{ZinnError, ZinnResult};
use crate::template::{registered_templates, render_component};
use crate::text::{
    contains_char, decimal, decimal_string, join, join_with, parse_list, push_char, remove_char, remove_chars, str_eq,
    views, words,
};
use crate::vars::{get_var, set_var, var_lookup};
use handlebars::Handlebars;
use std::sync::Arc;
use vstd::prelude::*;

verus! {

/// Iterates a dependency over the items of a whitespace-separated list.
pub struct Foreach {
    /// The parameter that receives each item.
    pub var: String,
    /// The template of the list.
    pub values: String,
}

/// A dependency of a job template on another one.
pub struct JobDependency {
    /// The name of the job depended on.
    pub job: String,
    /// Parameter templates handed to that job.
    pub with: Vec<(String, String)>,
    /// Instantiates the dependency once per item of a list.
    pub foreach: Option<Foreach>,
}

/// A job template.
pub struct JobDescription {
    /// The shell script template.
    pub run: String,
    pub requires: Vec<JobDependency>,
    /// Declared argument names, in order.
    pub args: Vec<String>,
    /// Default value templates of arguments.
    pub defaults: Vec<(String, String)>,
    /// Input files as one whitespace-separated template.
    pub inputs: Option<String>,
    /// Input files, one template each.
    pub input_list: Vec<String>,
    pub outputs: Option<String>,
    pub output_list: Vec<String>,
    /// The job's shell gets the terminal and its output is not captured.
    pub interactive: bool,
}

/// A job with its dependencies realized and every template rendered.
pub struct InnerJobRealization {
    name: String,
    run: String,
    interactive: bool,
    param_values: Vec<String>,
    dependencies: Vec<JobRealization>,
    inputs: Vec<String>,
    outputs: Vec<String>,
}

pub type JobRealization = Arc<InnerJobRealization>;

/// The value of a realized job; two jobs are the same job when their views
/// are equal.
pub struct JobView {
    pub name: Seq<char>,
    pub run: Seq<char>,
    pub interactive: bool,
    pub param_values: Seq<Seq<char>>,
    pub dependencies: Seq<JobView>,
    pub inputs: Seq<Seq<char>>,
    pub outputs: Seq<Seq<char>>,
}

pub closed spec fn job_view(j: InnerJobRealization) -> JobView
    decreases j,
{
    JobView {
        name: j.name@,
        run: j.run@,
        interactive: j.interactive,
        param_values: views(j.param_values@),
        dependencies: Seq::new(
            j.dependencies.len() as nat,
            |i: int|
                if 0 <= i < j.dependencies.len() {
                    job_view(*j.dependencies[i])
                } else {
                    arbitrary()
                },
        ),
        inputs: views(j.inputs@),
        outputs: views(j.outputs@),
    }
}

impl View for InnerJobRealization {
    type V = JobView;

    open spec fn view(&self) -> JobView {
        job_view(*self)
    }
}

/// `d` is a dependency of `j`, directly or through other dependencies.
pub open spec fn reaches(j: JobView, d: JobView) -> bool
    decreases j,
{
    exists|i: int|
        0 <= i < j.dependencies.len() && (#[trigger] j.dependencies[i] == d || reaches(
            j.dependencies[i],
            d,
        ))
}

/// `d` is `deps[m]` or a dependency of it, for some `m < n`.
pub open spec fn covered(deps: Seq<JobView>, n: int, d: JobView) -> bool {
    exists|m: int| 0 <= m < n && (#[trigger] deps[m] == d || reaches(deps[m], d))
}

/// Some job of `l` has the view `d`.
pub open spec fn listed(l: Seq<JobRealization>, d: JobView) -> bool {
    exists|k: int| 0 <= k < l.len() && (*#[trigger] l[k])@ == d
}

/// The job at index `k` of `l` has `d` at some smaller index.
pub open spec fn earlier(l: Seq<JobRealization>, k: int, d: JobView) -> bool {
    exists|m: int| 0 <= m < k && (*l[m])@ == d
}

/// Each job of `l` comes after its direct dependencies.
pub open spec fn deps_first(l: Seq<JobRealization>) -> bool {
    forall|k: int, i: int|
        0 <= k < l.len() && 0 <= i < (*l[k])@.dependencies.len() ==> #[trigger] earlier(
            l,
            k,
            (*l[k])@.dependencies[i],
        )
}

proof fn lemma_deps_first_concat(a: Seq<JobRealization>, b: Seq<JobRealization>)
    requires
        deps_first(a),
        deps_first(b),
    ensures
        deps_first(a + b),
{
    let c = a + b;
    assert forall|k: int, i: int|
        0 <= k < c.len() && 0 <= i < (*c[k])@.dependencies.len() implies #[trigger] earlier(
            c,
            k,
            (*c[k])@.dependencies[i],
        ) by {
        if k < a.len() {
            assert(c[k] == a[k]);
            assert(earlier(a, k, (*a[k])@.dependencies[i]));
            let m = choose|m: int| 0 <= m < k && (*a[m])@ == (*a[k])@.dependencies[i];
            assert(c[m] == a[m]);
        } else {
            let kb = k - a.len();
            assert(c[k] == b[kb]);
            assert(earlier(b, kb, (*b[kb])@.dependencies[i]));
            let m = choose|m: int| 0 <= m < kb && (*b[m])@ == (*b[kb])@.dependencies[i];
            assert(c[a.len() + m] == b[m]);
        }
    }
}

proof fn lemma_deps_first_push(a: Seq<JobRealization>, x: JobRealization)
    requires
        deps_first(a),
        forall|i: int| 0 <= i < (*x)@.dependencies.len() ==> #[trigger] listed(a, (*x)@.dependencies[i]),
    ensures
        deps_first(a.push(x)),
{
    let c = a.push(x);
    assert forall|k: int, i: int|
        0 <= k < c.len() && 0 <= i < (*c[k])@.dependencies.len() implies #[trigger] earlier(
            c,
            k,
            (*c[k])@.dependencies[i],
        ) by {
        if k < a.len() {
            assert(c[k] == a[k]);
            assert(earlier(a, k, (*a[k])@.dependencies[i]));
            let m = choose|m: int| 0 <= m < k && (*a[m])@ == (*a[k])@.dependencies[i];
            assert(c[m] == a[m]);
        } else {
            assert(c[k] == x);
            assert(listed(a, (*x)@.dependencies[i]));
            let m = choose|m: int| 0 <= m < a.len() && (*#[trigger] a[m])@ == (*x)@.dependencies[i];
            assert(c[m] == a[m]);
        }
    }
}

/// Relies on `Arc::clone`: a new handle to the same job.
#[verifier::external_body]
pub fn share(j: &JobRealization) -> (r: JobRealization)
    ensures
        r == *j,
{
    Arc::clone(j)
}

pub fn share_all(v: &Vec<JobRealization>) -> (r: Vec<JobRealization>)
    ensures
        r@ == v@,
{
    let mut out: Vec<JobRealization> = Vec::new();
    let mut i: usize = 0;
    while i < v.len()
        invariant
            i <= v.len(),
            out@ == v@.take(i as int),
        decreases v.len() - i,
    {
        out.push(share(&v[i]));
        i += 1;
        assert(out@ =~= v@.take(i as int));
    }
    assert(v@.take(i as int) =~= v@);
    out
}

fn same_strings(a: &Vec<String>, b: &Vec<String>) -> (r: bool)
    ensures
        r == (views(a@) == views(b@)),
{
    if a.len() != b.len() {
        assert(views(a@).len() != views(b@).len());
        return false;
    }
    let mut i: usize = 0;
    while i < a.len()
        invariant
            i <= a.len() == b.len(),
            forall|k: int| 0 <= k < i ==> a@[k]@ == b@[k]@,
        decreases a.len() - i,
    {
        if a[i] != b[i] {
            assert(views(a@)[i as int] != views(b@)[i as int]);
            return false;
        }
        i += 1;
    }
    assert(views(a@) =~= views(b@));
    true
}

/// Whether `a` and `b` are the same job: equal in every field, their
/// dependencies included.
pub fn same_job(a: &InnerJobRealization, b: &InnerJobRealization) -> (r: bool)
    ensures
        r == (a@ == b@),
    decreases a@,
{
    if a.name != b.name || a.run != b.run || a.interactive != b.interactive
        || !same_strings(&a.param_values, &b.param_values) || !same_strings(&a.inputs, &b.inputs)
        || !same_strings(&a.outputs, &b.outputs) || a.dependencies.len() != b.dependencies.len() {
        assert(a@.dependencies.len() == a.dependencies.len());
        assert(a@ != b@);
        return false;
    }
    let mut i: usize = 0;
    while i < a.dependencies.len()
        invariant
            i <= a.dependencies.len() == b.dependencies.len(),
            forall|k: int| 0 <= k < i ==> (*a.dependencies@[k])@ == (*b.dependencies@[k])@,
        decreases a.dependencies.len() - i,
    {
        assert((*a.dependencies@[i as int])@ == a@.dependencies[i as int]);
        if !same_job(&a.dependencies[i], &b.dependencies[i]) {
            assert(a@.dependencies[i as int] != b@.dependencies[i as int]);
            return false;
        }
        i += 1;
    }
    assert(a@.dependencies =~= b@.dependencies);
    true
}

/// How a job is shown: `[name]`, then its parameter values after a space.
pub open spec fn display_text(j: JobView) -> Seq<char> {
    seq!['['] + j.name + seq![']'] + if j.param_values.len() == 0 {
        Seq::<char>::empty()
    } else {
        seq![' '] + join_with(j.param_values, seq![' '])
    }
}

impl InnerJobRealization {
    pub fn new(
        name: String,
        run: String,
        interactive: bool,
        param_values: Vec<String>,
        dependencies: Vec<JobRealization>,
        inputs: Vec<String>,
        outputs: Vec<String>,
    ) -> (r: InnerJobRealization)
        ensures
            r@.name == name@,
            r@.run == run@,
            r@.interactive == interactive,
            r@.param_values == views(param_values@),
            r@.dependencies.len() == dependencies.len(),
            forall|i: int| 0 <= i < dependencies.len() ==> r@.dependencies[i] == (*dependencies@[i])@,
            r@.inputs == views(inputs@),
            r@.outputs == views(outputs@),
    {
        InnerJobRealization { name, run, interactive, param_values, dependencies, inputs, outputs }
    }

    pub fn dependencies(&self) -> (r: Vec<JobRealization>)
        ensures
            r.len() == self@.dependencies.len(),
            forall|i: int| 0 <= i < r.len() ==> (*#[trigger] r@[i])@ == self@.dependencies[i],
    {
        share_all(&self.dependencies)
    }

    /// The number of direct dependencies.
    pub fn dependency_count(&self) -> (r: usize)
        ensures
            r == self@.dependencies.len(),
    {
        self.dependencies.len()
    }

    /// The `i`-th direct dependency.
    pub fn dependency(&self, i: usize) -> (r: &JobRealization)
        requires
            i < self@.dependencies.len(),
        ensures
            (**r)@ == self@.dependencies[i as int],
    {
        &self.dependencies[i]
    }

    /// Every job that this one depends on, directly or not; a job may occur
    /// more than once, the dependencies of a job before the job itself.
    pub fn transitive_dependencies(&self) -> (r: Vec<JobRealization>)
        ensures
            forall|d: JobView| #![trigger listed(r@, d)] reaches(self@, d) <==> listed(r@, d),
            deps_first(r@),
        decreases self@,
    {
        let mut out: Vec<JobRealization> = Vec::new();
        let mut i: usize = 0;
        while i < self.dependencies.len()
            invariant
                i <= self.dependencies.len(),
                forall|d: JobView| #![trigger listed(out@, d)]
                    covered(self@.dependencies, i as int, d) <==> listed(out@, d),
                deps_first(out@),
            decreases self.dependencies.len() - i,
        {
            let dep = &self.dependencies[i];
            assert((**dep)@ == self@.dependencies[i as int]);
            let sub = dep.transitive_dependencies();
            let ghost before = out@;
            let mut j: usize = 0;
            while j < sub.len()
                invariant
                    j <= sub.len(),
                    out@ == before + sub@.take(j as int),
                decreases sub.len() - j,
            {
                out.push(share(&sub[j]));
                j += 1;
                assert(out@ =~= before + sub@.take(j as int));
            }
            assert(sub@.take(j as int) =~= sub@);
            proof {
                lemma_deps_first_concat(before, sub@);
                assert forall|k: int| 0 <= k < (**dep)@.dependencies.len() implies #[trigger] listed(
                    out@,
                    (**dep)@.dependencies[k],
                ) by {
                    assert(reaches((**dep)@, (**dep)@.dependencies[k]));
                    assert(listed(sub@, (**dep)@.dependencies[k]));
                    let m = choose|m: int| 0 <= m < sub.len() && (*#[trigger] sub@[m])@ == (**dep)@.dependencies[k];
                    assert(out@[before.len() + m] == sub@[m]);
                }
                lemma_deps_first_push(out@, *dep);
            }
            out.push(share(dep));
            let ghost dv = self@.dependencies[i as int];
            assert forall|d: JobView| #![trigger listed(out@, d)]
                covered(self@.dependencies, i + 1, d) <==> listed(out@, d) by {
                if covered(self@.dependencies, i + 1, d) {
                    let m = choose|m: int|
                        0 <= m < i + 1 && (#[trigger] self@.dependencies[m] == d || reaches(
                            self@.dependencies[m],
                            d,
                        ));
                    if m < i {
                        assert(covered(self@.dependencies, i as int, d));
                        assert(listed(before, d));
                        let k = choose|k: int| 0 <= k < before.len() && (*#[trigger] before[k])@ == d;
                        assert(out@[k] == before[k]);
                    } else if dv == d {
                        assert(out@[out.len() - 1] == *dep);
                    } else {
                        assert(listed(sub@, d));
                        let k = choose|k: int| 0 <= k < sub.len() && (*#[trigger] sub@[k])@ == d;
                        assert(out@[before.len() + k] == sub@[k]);
                    }
                }
                if listed(out@, d) {
                    let k = choose|k: int| 0 <= k < out.len() && (*#[trigger] out@[k])@ == d;
                    if k < before.len() {
                        assert(out@[k] == before[k]);
                        assert(listed(before, d));
                    } else if k < before.len() + sub.len() {
                        assert(out@[k] == sub@[k - before.len()]);
                        assert(listed(sub@, d));
                        assert(reaches(dv, d));
                    } else {
                        assert(out@[k] == *dep);
                    }
                }
            }
            i += 1;
        }
        assert forall|d: JobView| #![trigger listed(out@, d)] reaches(self@, d) <==> listed(out@, d) by {
            assert(covered(self@.dependencies, i as int, d) == reaches(self@, d));
        }
        out
    }

    pub fn name(&self) -> (r: &str)
        ensures
            r@ == self@.name,
    {
        self.name.as_str()
    }

    pub fn cmd(&self) -> (r: &str)
        ensures
            r@ == self@.run,
    {
        self.run.as_str()
    }

    pub fn is_interactive(&self) -> (r: bool)
        ensures
            r == self@.interactive,
    {
        self.interactive
    }

    pub fn inputs(&self) -> (r: &Vec<String>)
        ensures
            views(r@) == self@.inputs,
    {
        &self.inputs
    }

    pub fn outputs(&self) -> (r: &Vec<String>)
        ensures
            views(r@) == self@.outputs,
    {
        &self.outputs
    }

    pub fn param_values(&self) -> (r: &Vec<String>)
        ensures
            views(r@) == self@.param_values,
    {
        &self.param_values
    }

    /// The job as shown to the user: `[name]`, then its parameter values.
    pub fn display(&self) -> (r: String)
        ensures
            r@ == display_text(self@),
    {
        let mut out = String::new();
        push_char(&mut out, '[');
        out.append(self.name.as_str());
        push_char(&mut out, ']');
        if self.param_values.len() > 0 {
            push_char(&mut out, ' ');
            let sep = " ";
            proof {
                reveal_strlit(" ");
                assert(sep@ =~= seq![' ']);
            }
            let joined = join(&self.param_values, sep);
            out.append(joined.as_str());
        }
        assert(out@ =~= display_text(self@));
        out
    }
}

/// Nesting bound of realization: a chain of dependencies deeper than this
/// is taken for a cycle.
pub const MAX_DEPTH: usize = 1000;

/// The value of argument `a`: a supplied parameter, else its default.
pub open spec fn arg_value(
    defaults: Seq<(String, String)>,
    params: Seq<(String, String)>,
    a: Seq<char>,
) -> Option<Seq<char>> {
    match var_lookup(params, a) {
        Some(v) => Some(v),
        None => var_lookup(defaults, a),
    }
}

pub open spec fn args_resolved(
    args: Seq<String>,
    defaults: Seq<(String, String)>,
    params: Seq<(String, String)>,
) -> bool {
    forall|k: int| 0 <= k < args.len() ==> (#[trigger] arg_value(defaults, params, args[k]@)) is Some
}

/// `args[k]` is the first argument that has no value.
pub open spec fn first_missing(
    args: Seq<String>,
    defaults: Seq<(String, String)>,
    params: Seq<(String, String)>,
    k: int,
) -> bool {
    &&& 0 <= k < args.len()
    &&& arg_value(defaults, params, args[k]@) is None
    &&& forall|j: int| 0 <= j < k ==> (#[trigger] arg_value(defaults, params, args[j]@)) is Some
}

/// The values of the arguments, in declared order.
pub open spec fn arg_values(
    args: Seq<String>,
    defaults: Seq<(String, String)>,
    params: Seq<(String, String)>,
) -> Seq<Seq<char>> {
    Seq::new(args.len(), |k: int| arg_value(defaults, params, args[k]@)->0)
}

pub fn clone_vars(v: &Vec<(String, String)>) -> (r: Vec<(String, String)>)
    ensures
        r@ == v@,
{
    let mut out: Vec<(String, String)> = Vec::new();
    let mut i: usize = 0;
    while i < v.len()
        invariant
            i <= v.len(),
            out@ == v@.take(i as int),
        decreases v.len() - i,
    {
        out.push((v[i].0.clone(), v[i].1.clone()));
        i += 1;
        assert(out@ =~= v@.take(i as int));
    }
    assert(v@.take(i as int) =~= v@);
    out
}

/// Binds each declared argument to its value: the constants come first,
/// then one binding per argument; the values are also returned in order.
pub fn resolve_args(
    args: &Vec<String>,
    defaults: &Vec<(String, String)>,
    constants: &Vec<(String, String)>,
    parameters: &Vec<(String, String)>,
) -> (r: ZinnResult<(Vec<(String, String)>, Vec<String>)>)
    ensures
        r is Ok <==> args_resolved(args@, defaults@, parameters@),
        r is Err ==> exists|k: int|
            first_missing(args@, defaults@, parameters@, k) && (r matches Err(
                ZinnError::MissingArgument(m),
            ) && m@ == args@[k]@),
        r matches Ok((vars, vals)) ==> {
            &&& views(vals@) == arg_values(args@, defaults@, parameters@)
            &&& vars@.len() == constants.len() + args.len()
            &&& vars@.take(constants.len() as int) == constants@
            &&& forall|k: int|
                0 <= k < args.len() ==> (#[trigger] vars@[constants.len() + k]).0@ == args@[k]@
                    && vars@[constants.len() + k].1@ == vals@[k]@
        },
{
    let mut vars = clone_vars(constants);
    let mut vals: Vec<String> = Vec::new();
    let mut i: usize = 0;
    while i < args.len()
        invariant
            i <= args.len(),
            vals.len() == i,
            vars@.len() == constants.len() + i,
            vars@.take(constants.len() as int) == constants@,
            forall|k: int| 0 <= k < i ==> (#[trigger] arg_value(defaults@, parameters@, args@[k]@)) is Some,
            forall|k: int| 0 <= k < i ==> vals@[k]@ == (#[trigger] arg_value(defaults@, parameters@, args@[k]@))->0,
            forall|k: int|
                0 <= k < i ==> (#[trigger] vars@[constants.len() + k]).0@ == args@[k]@
                    && vars@[constants.len() + k].1@ == vals@[k]@,
        decreases args.len() - i,
    {
        let arg = &args[i];
        let found = match get_var(parameters, arg.as_str()) {
            Some(v) => Some(v),
            None => get_var(defaults, arg.as_str()),
        };
        match found {
            Some(v) => {
                let ghost vars_before = vars@;
                set_var(&mut vars, arg.clone(), v.clone());
                vals.push(v.clone());
                assert(vars@.take(constants.len() as int) =~= vars_before.take(constants.len() as int));
            },
            None => {
                assert(first_missing(args@, defaults@, parameters@, i as int));
                return Err(ZinnError::MissingArgument(arg.clone()));
            },
        }
        i += 1;
    }
    assert(views(vals@) =~= arg_values(args@, defaults@, parameters@));
    Ok((vars, vals))
}

/// `t` is the first entry of `table` named `name`.
pub open spec fn first_named(table: Seq<(String, JobDescription)>, name: Seq<char>, t: int) -> bool {
    &&& 0 <= t < table.len()
    &&& table[t].0@ == name
    &&& forall|j: int| 0 <= j < t ==> (#[trigger] table[j]).0@ != name
}

/// The job of the table named `name`: the first entry of that name.
pub fn find_job<'a>(jobs: &'a Vec<(String, JobDescription)>, name: &str) -> (r: Option<&'a JobDescription>)
    ensures
        match r {
            Some(d) => exists|k: int| first_named(jobs@, name@, k) && jobs@[k].1 == *d,
            None => forall|k: int| 0 <= k < jobs.len() ==> (#[trigger] jobs@[k]).0@ != name@,
        },
{
    let mut i: usize = 0;
    while i < jobs.len()
        invariant
            i <= jobs.len(),
            forall|k: int| 0 <= k < i ==> (#[trigger] jobs@[k]).0@ != name@,
        decreases jobs.len() - i,
    {
        if str_eq(jobs[i].0.as_str(), name) {
            assert(first_named(jobs@, name@, i as int));
            return Some(&jobs[i].1);
        }
        i += 1;
    }
    None
}

/// The parameters of each instance of a `foreach` dependency: one per item
/// of the rendered list, each binding `var` to its item over `base`.
pub fn foreach_bindings(base: &Vec<(String, String)>, var: &String, rendered: &str) -> (r: Vec<
    Vec<(String, String)>,
>)
    ensures
        r.len() == words(rendered@).len(),
        forall|k: int|
            0 <= k < r.len() ==> {
                &&& (#[trigger] r@[k])@.drop_last() == base@
                &&& r@[k]@.len() == base@.len() + 1
                &&& r@[k]@.last().0@ == var@
                &&& r@[k]@.last().1@ == words(rendered@)[k]
            },
{
    let items = parse_list(rendered);
    assert(items.len() == words(rendered@).len() && forall|k: int| 0 <= k < items.len() ==> items@[k]@ == #[trigger] words(rendered@)[k]) by {
        assert(forall|k: int| 0 <= k < items.len() ==> #[trigger] views(items@)[k] == items@[k]@);
    }
    let mut out: Vec<Vec<(String, String)>> = Vec::new();
    let mut i: usize = 0;
    while i < items.len()
        invariant
            i <= items.len(),
            items.len() == words(rendered@).len(),
            forall|k: int| 0 <= k < items.len() ==> items@[k]@ == #[trigger] words(rendered@)[k],
            out.len() == i,
            forall|k: int|
                0 <= k < i ==> {
                    &&& (#[trigger] out@[k])@.drop_last() == base@
                    &&& out@[k]@.len() == base@.len() + 1
                    &&& out@[k]@.last().0@ == var@
                    &&& out@[k]@.last().1@ == words(rendered@)[k]
                },
        decreases items.len() - i,
    {
        let mut b = clone_vars(base);
        set_var(&mut b, var.clone(), items[i].clone());
        assert(b@.drop_last() =~= base@);
        out.push(b);
        i += 1;
    }
    out
}

/// The table has a job of each name that `deps` refers to.
pub open spec fn all_found(deps: Seq<JobDependency>, table: Seq<(String, JobDescription)>) -> bool {
    forall|k: int|
        0 <= k < deps.len() ==> exists|t: int| 0 <= t < table.len() && (#[trigger] table[t]).0@ == (
        #[trigger] deps[k]).job@
}

/// The template path `["jobs", job, part]`.
fn job_path(job: &str, part: &str) -> (r: Vec<String>)
    ensures
        r.len() == 3,
        views(r@) == seq!["jobs"@, job@, part@],
{
    let r = vec![String::from_str("jobs"), String::from_str(job), String::from_str(part)];
    assert(views(r@) =~= seq!["jobs"@, job@, part@]);
    r
}

/// The template path `["jobs", job, part, index]`, with `rest` after it if given.
fn indexed_path(job: &str, part: &str, index: usize, rest: Option<&str>) -> (r: Vec<String>)
    ensures
        r.len() >= 4,
        views(r@) == seq!["jobs"@, job@, part@, decimal(index as nat)] + match rest {
            Some(x) => seq![x@],
            None => Seq::<Seq<char>>::empty(),
        },
{
    let mut p = vec![
        String::from_str("jobs"),
        String::from_str(job),
        String::from_str(part),
        decimal_string(index),
    ];
    assert(views(p@) =~= seq!["jobs"@, job@, part@, decimal(index as nat)]);
    if let Some(x) = rest {
        let ghost before = views(p@);
        p.push(String::from_str(x));
        assert(views(p@) =~= before + seq![x@]);
    } else {
        assert(views(p@) =~= seq!["jobs"@, job@, part@, decimal(index as nat)] + Seq::<Seq<char>>::empty());
    }
    p
}

/// `files` is what a file declaration renders to: the words of some
/// rendering of `single`, if given, then one rendering per template of `list`.
pub open spec fn files_shape(single: Option<String>, list: Seq<String>, files: Seq<Seq<char>>) -> bool {
    exists|s: Seq<char>, l: Seq<Seq<char>>| l.len() == list.len() && files == #[trigger] files_from(single, s, l)
}

/// The words of `s` where `single` is given, then `l`.
pub open spec fn files_from(single: Option<String>, s: Seq<char>, l: Seq<Seq<char>>) -> Seq<Seq<char>> {
    (if single is Some {
        words(s)
    } else {
        Seq::<Seq<char>>::empty()
    }) + l
}

/// Renders a file declaration: the items of the whitespace-separated
/// template, then each template of the list.
fn render_files(
    job: &str,
    single: &Option<String>,
    single_part: &str,
    list: &Vec<String>,
    list_part: &str,
    handlebars: &mut Handlebars<'static>,
    vars: &Vec<(String, String)>,
) -> (r: ZinnResult<Vec<String>>)
    ensures
        !(r matches Err(ZinnError::JobNotFound(_))),
        r matches Ok(files) ==> files_shape(*single, list@, views(files@)),
        single is None && list.len() == 0 ==> r is Ok,
{
    let mut files: Vec<String> = Vec::new();
    let ghost mut head: Seq<char> = Seq::empty();
    if let Some(s) = single {
        let rendered = render_component(&job_path(job, single_part), s.as_str(), handlebars, vars)?;
        files = parse_list(rendered.as_str());
        proof {
            head = rendered@;
        }
    }
    let ghost prefix = views(files@);
    assert(prefix == if single is Some { words(head) } else { Seq::<Seq<char>>::empty() });
    let mut i: usize = 0;
    while i < list.len()
        invariant
            i <= list.len(),
            views(files@).len() == prefix.len() + i,
            views(files@).take(prefix.len() as int) == prefix,
        decreases list.len() - i,
    {
        let path = indexed_path(job, list_part, i, None);
        let rendered = render_component(&path, list[i].as_str(), handlebars, vars)?;
        let ghost before = views(files@);
        files.push(rendered);
        assert(views(files@) =~= before.push(rendered@));
        assert(views(files@).take(prefix.len() as int) =~= before.take(prefix.len() as int));
        i += 1;
    }
    let ghost l = views(files@).skip(prefix.len() as int);
    assert(views(files@) =~= prefix + l);
    assert(l.len() == list.len() && views(files@) == files_from(*single, head, l));
    assert(files_shape(*single, list@, views(files@)));
    Ok(files)
}

/// The views of the jobs of `l`.
pub open spec fn job_views(l: Seq<JobRealization>) -> Seq<JobView> {
    l.map_values(|j: JobRealization| (*j)@)
}

/// `params` binds the keys of `dep`'s `with`, in order, each to some value,
/// then `bound` where given.
pub open spec fn params_shape(
    dep: JobDependency,
    bound: Option<(Seq<char>, Seq<char>)>,
    params: Seq<(String, String)>,
) -> bool {
    let n = dep.with.len() as int;
    &&& params.len() == n + if bound is Some {
        1int
    } else {
        0int
    }
    &&& forall|j: int| 0 <= j < n ==> (#[trigger] params[j]).0@ == dep.with@[j].0@
    &&& match bound {
        Some((k, v)) => params[n].0@ == k && params[n].1@ == v,
        None => true,
    }
}

/// `child` realizes the job that `dep` names, the first of that name in
/// `table`, with parameters of the shape `params_shape` gives.
pub open spec fn child_of(
    dep: JobDependency,
    table: Seq<(String, JobDescription)>,
    child: JobView,
    bound: Option<(Seq<char>, Seq<char>)>,
) -> bool {
    &&& child.name == remove_char(dep.job@, '\n')
    &&& exists|t: int, params: Seq<(String, String)>|
        #![trigger first_named(table, dep.job@, t), params_shape(dep, bound, params)]
        first_named(table, dep.job@, t) && params_shape(dep, bound, params)
            && child.interactive == table[t].1.interactive
            && child.param_values == arg_values(table[t].1.args@, table[t].1.defaults@, params)
}

/// What `dep` contributes to the dependencies: one child; with `foreach`,
/// one child per word of some rendering of its list, in order, the word
/// bound to its variable.
pub open spec fn group_of(
    dep: JobDependency,
    table: Seq<(String, JobDescription)>,
    group: Seq<JobView>,
) -> bool {
    match dep.foreach {
        None => group.len() == 1 && child_of(dep, table, group[0], None),
        Some(f) => exists|s: Seq<char>|
            #[trigger] words(s).len() == group.len() && forall|k: int|
                0 <= k < group.len() ==> child_of(dep, table, #[trigger] group[k], Some((f.var@, words(s)[k]))),
    }
}

/// `children` splits at `bounds` into one group per dependency of `deps`, in order.
pub open spec fn grouped_at(
    deps: Seq<JobDependency>,
    table: Seq<(String, JobDescription)>,
    children: Seq<JobView>,
    bounds: Seq<int>,
) -> bool {
    &&& bounds.len() == deps.len() + 1
    &&& bounds[0] == 0
    &&& bounds[deps.len() as int] == children.len()
    &&& forall|i: int| 0 <= i <= deps.len() ==> 0 <= #[trigger] bounds[i] <= children.len()
    &&& forall|i: int| 0 <= i < deps.len() ==> #[trigger] bounds[i] <= bounds[i + 1]
    &&& forall|i: int|
        0 <= i < deps.len() ==> group_of(
            #[trigger] deps[i],
            table,
            children.subrange(bounds[i], bounds[i + 1]),
        )
}

/// `children` are what the dependencies `deps` contribute, in order.
pub open spec fn grouped(deps: Seq<JobDependency>, table: Seq<(String, JobDescription)>, children: Seq<JobView>) -> bool {
    exists|b: Seq<int>| #[trigger] grouped_at(deps, table, children, b)
}

proof fn lemma_group_extend(
    deps: Seq<JobDependency>,
    table: Seq<(String, JobDescription)>,
    children: Seq<JobView>,
    bounds: Seq<int>,
    dep: JobDependency,
    group: Seq<JobView>,
)
    requires
        grouped_at(deps, table, children, bounds),
        group_of(dep, table, group),
    ensures
        grouped_at(deps.push(dep), table, children + group, bounds.push((children.len() + group.len()) as int)),
{
    let c2 = children + group;
    let b2 = bounds.push((children.len() + group.len()) as int);
    let d2 = deps.push(dep);
    assert(b2[0] == bounds[0]);
    assert(b2[d2.len() as int] == c2.len());
    assert forall|i: int| 0 <= i <= d2.len() implies 0 <= #[trigger] b2[i] <= c2.len() by {
        if i < bounds.len() {
            assert(b2[i] == bounds[i]);
        }
    }
    assert forall|i: int| 0 <= i < d2.len() implies #[trigger] b2[i] <= b2[i + 1] by {
        if i < deps.len() {
            assert(b2[i] == bounds[i] && b2[i + 1] == bounds[i + 1]);
        } else {
            assert(b2[i] == bounds[i]);
        }
    }
    assert forall|i: int| 0 <= i < d2.len() implies group_of(
        #[trigger] d2[i],
        table,
        c2.subrange(b2[i], b2[i + 1]),
    ) by {
        if i < deps.len() {
            assert(d2[i] == deps[i]);
            assert(b2[i] == bounds[i] && b2[i + 1] == bounds[i + 1]);
            assert(bounds[i + 1] <= children.len());
            assert(c2.subrange(b2[i], b2[i + 1]) =~= children.subrange(bounds[i], bounds[i + 1]));
        } else {
            assert(b2[i] == bounds[i]);
            assert(b2[i + 1] == c2.len());
            assert(c2.subrange(b2[i], b2[i + 1]) =~= group);
        }
    }
    assert(grouped_at(d2, table, c2, b2));
}

/// An error that comes before any template is rendered.
pub enum SettledError {
    MissingArgument(Seq<char>),
    Colon(Seq<char>),
    TooDeep(Seq<char>),
    DependencyNotFound(Seq<char>),
}

/// `d` renders no template before it realizes its first dependency.
pub open spec fn first_dep_unrendered(d: JobDescription) -> bool {
    &&& d.inputs is None
    &&& d.input_list.len() == 0
    &&& d.outputs is None
    &&& d.output_list.len() == 0
    &&& d.requires.len() > 0
    &&& d.requires@[0].with.len() == 0
    &&& d.requires@[0].foreach is None
}

/// The error that realizing `d`, named `name`, with `params` and nesting
/// budget `depth`, meets before it renders any template, if any: a missing
/// argument; a name holding the path separator; a dependency where the
/// budget is spent; or, where nothing is rendered before the first
/// dependency, that dependency missing from `table` or its own such error.
pub open spec fn early_error(
    table: Seq<(String, JobDescription)>,
    d: JobDescription,
    name: Seq<char>,
    params: Seq<(String, String)>,
    depth: nat,
) -> Option<SettledError>
    decreases depth,
{
    if !args_resolved(d.args@, d.defaults@, params) {
        Some(
            SettledError::MissingArgument(
                d.args@[choose|k: int| first_missing(d.args@, d.defaults@, params, k)]@,
            ),
        )
    } else if name.contains(':') {
        Some(SettledError::Colon(name))
    } else if depth == 0 && d.requires.len() > 0 {
        Some(SettledError::TooDeep(name))
    } else if first_dep_unrendered(d) {
        let job = d.requires@[0].job@;
        if forall|t: int| 0 <= t < table.len() ==> (#[trigger] table[t]).0@ != job {
            Some(SettledError::DependencyNotFound(job))
        } else if depth > 0 {
            let t = choose|t: int| first_named(table, job, t);
            early_error(table, table[t].1, job, Seq::empty(), (depth - 1) as nat)
        } else {
            None
        }
    } else {
        None
    }
}

/// `r` is the error `e`.
pub open spec fn fails_with(r: ZinnResult<JobRealization>, e: SettledError) -> bool {
    match e {
        SettledError::MissingArgument(a) => r matches Err(ZinnError::MissingArgument(m)) && m@ == a,
        SettledError::Colon(n) => r matches Err(ZinnError::ColonInTemplateName(m)) && m@ == n,
        SettledError::TooDeep(n) => r matches Err(ZinnError::DependencyTooDeep(m)) && m@ == n,
        SettledError::DependencyNotFound(n) => r matches Err(ZinnError::DependencyNotFound(m)) && m@ == n,
    }
}

/// What holds of a realization of `d`, named `name`, with `params`, from
/// `table` and with nesting budget `depth`, whatever the templates render to.
pub open spec fn realization_of(
    d: JobDescription,
    name: Seq<char>,
    table: Seq<(String, JobDescription)>,
    params: Seq<(String, String)>,
    depth: nat,
    r: ZinnResult<JobRealization>,
) -> bool {
    &&& early_error(table, d, name, params, depth) matches Some(e) ==> fails_with(r, e)
    &&& !(r matches Err(ZinnError::JobNotFound(_)))
    &&& r matches Ok(job) ==> {
        &&& (*job)@.name == remove_char(name, '\n')
        &&& (*job)@.interactive == d.interactive
        &&& (*job)@.param_values == arg_values(d.args@, d.defaults@, params)
        &&& files_shape(d.inputs, d.input_list@, (*job)@.inputs)
        &&& files_shape(d.outputs, d.output_list@, (*job)@.outputs)
        &&& grouped(d.requires@, table, (*job)@.dependencies)
        &&& all_found(d.requires@, table)
    }
}

impl JobDescription {
    pub fn args(&self) -> (r: &Vec<String>)
        ensures
            r@ == self.args@,
    {
        &self.args
    }

    /// Expands this template, named `name`, into a realized job: arguments
    /// are taken from `parameters`, else from the declared defaults; every
    /// template is rendered against the constants and the arguments; each
    /// dependency is realized from the table `job_descriptions`. A chain of
    /// dependencies nested deeper than `MAX_DEPTH` fails with
    /// `DependencyTooDeep`.
    pub fn realize(
        &self,
        name: &str,
        job_descriptions: &Vec<(String, JobDescription)>,
        handlebars: &mut Handlebars<'static>,
        constants: &Vec<(String, String)>,
        parameters: &Vec<(String, String)>,
    ) -> (r: ZinnResult<JobRealization>)
        ensures
            !args_resolved(self.args@, self.defaults@, parameters@) ==> registered_templates(
                *final(handlebars),
            ) == registered_templates(*old(handlebars)),
            realization_of(*self, name@, job_descriptions@, parameters@, MAX_DEPTH as nat, r),
    {
        self.realize_within(name, job_descriptions, handlebars, constants, parameters, MAX_DEPTH)
    }

    fn realize_within(
        &self,
        name: &str,
        job_descriptions: &Vec<(String, JobDescription)>,
        handlebars: &mut Handlebars<'static>,
        constants: &Vec<(String, String)>,
        parameters: &Vec<(String, String)>,
        depth: usize,
    ) -> (r: ZinnResult<JobRealization>)
        ensures
            !args_resolved(self.args@, self.defaults@, parameters@) ==> registered_templates(
                *final(handlebars),
            ) == registered_templates(*old(handlebars)),
            realization_of(*self, name@, job_descriptions@, parameters@, depth as nat, r),
        decreases depth,
    {
        let ghost table = job_descriptions@;
        let ghost early = early_error(table, *self, name@, parameters@, depth as nat);
        let (vars, param_values) = match resolve_args(&self.args, &self.defaults, constants, parameters) {
            Ok(x) => x,
            Err(e) => {
                proof {
                    let k = choose|k: int| first_missing(self.args@, self.defaults@, parameters@, k)
                        && (Err::<JobRealization, ZinnError>(e) matches Err(ZinnError::MissingArgument(m)) && m@ == self.args@[k]@);
                    let c = choose|c: int| first_missing(self.args@, self.defaults@, parameters@, c);
                    assert(k == c) by {
                        if k < c {
                            assert(arg_value(self.defaults@, parameters@, self.args@[k]@) is Some);
                        } else if c < k {
                            assert(arg_value(self.defaults@, parameters@, self.args@[c]@) is Some);
                        }
                    }
                }
                return Err(e);
            },
        };
        if contains_char(name, ':') {
            return Err(ZinnError::ColonInTemplateName(String::from_str(name)));
        }
        if depth == 0 && self.requires.len() > 0 {
            return Err(ZinnError::DependencyTooDeep(String::from_str(name)));
        }
        assert(early is Some ==> first_dep_unrendered(*self));
        let inputs = render_files(name, &self.inputs, "inputs", &self.input_list, "input-list", handlebars, &vars)?;
        let outputs = render_files(name, &self.outputs, "outputs", &self.output_list, "output-list", handlebars, &vars)?;

        let mut dependencies: Vec<JobRealization> = Vec::new();
        let ghost mut bounds: Seq<int> = seq![0];
        assert(grouped_at(self.requires@.take(0), table, job_views(dependencies@), bounds)) by {
            assert(job_views(dependencies@) =~= Seq::<JobView>::empty());
        }
        let mut i: usize = 0;
        while i < self.requires.len()
            invariant
                i <= self.requires.len(),
                table == job_descriptions@,
                early == early_error(table, *self, name@, parameters@, depth as nat),
                early is Some ==> i == 0 && first_dep_unrendered(*self),
                !name@.contains(':'),
                depth > 0 || self.requires.len() == 0,
                args_resolved(self.args@, self.defaults@, parameters@),
                views(param_values@) == arg_values(self.args@, self.defaults@, parameters@),
                all_found(self.requires@.take(i as int), job_descriptions@),
                grouped_at(self.requires@.take(i as int), table, job_views(dependencies@), bounds),
            decreases self.requires.len() - i,
        {
            let dep = &self.requires[i];
            let mut dep_params: Vec<(String, String)> = Vec::new();
            let mut w: usize = 0;
            while w < dep.with.len()
                invariant
                    i < self.requires.len(),
                    dep == &self.requires@[i as int],
                    table == job_descriptions@,
                    early == early_error(table, *self, name@, parameters@, depth as nat),
                    early is Some ==> i == 0 && first_dep_unrendered(*self),
                    args_resolved(self.args@, self.defaults@, parameters@),
                    w <= dep.with.len(),
                    dep_params.len() == w,
                    forall|j: int| 0 <= j < w ==> (#[trigger] dep_params@[j]).0@ == dep.with@[j].0@,
                decreases dep.with.len() - w,
            {
                let key = &dep.with[w].0;
                let path = indexed_path(name, "requires", i, Some(key.as_str()));
                let rendered = render_component(&path, dep.with[w].1.as_str(), handlebars, &vars)?;
                dep_params.push((key.clone(), rendered));
                w += 1;
            }
            let dep_desc = match find_job(job_descriptions, dep.job.as_str()) {
                Some(d) => d,
                None => return Err(ZinnError::DependencyNotFound(dep.job.clone())),
            };
            let ghost t = choose|k: int| first_named(table, dep.job@, k) && table[k].1 == *dep_desc;
            assert(all_found(self.requires@.take(i + 1), job_descriptions@)) by {
                assert forall|k: int| 0 <= k < i + 1 implies exists|u: int|
                    0 <= u < job_descriptions@.len() && (#[trigger] job_descriptions@[u]).0@ == (
                    #[trigger] self.requires@.take(i + 1)[k]).job@ by {
                    if k < i {
                        assert(self.requires@.take(i + 1)[k] == self.requires@.take(i as int)[k]);
                    } else {
                        assert(job_descriptions@[t].0@ == self.requires@.take(i + 1)[k].job@);
                    }
                }
            }
            let ghost before = job_views(dependencies@);
            let ghost group: Seq<JobView>;
            match &dep.foreach {
                Some(each) => {
                    let path = indexed_path(name, "requires", i, Some("foreach"));
                    let rendered = render_component(&path, each.values.as_str(), handlebars, &vars)?;
                    let instances = foreach_bindings(&dep_params, &each.var, rendered.as_str());
                    let mut n: usize = 0;
                    while n < instances.len()
                        invariant
                            i < self.requires.len(),
                            depth > 0,
                            dep == &self.requires@[i as int],
                            dep.foreach == Some(*each),
                            early is None,
                            early == early_error(table, *self, name@, parameters@, depth as nat),
                            args_resolved(self.args@, self.defaults@, parameters@),
                            first_named(table, dep.job@, t) && table[t].1 == *dep_desc,
                            table == job_descriptions@,
                            n <= instances.len(),
                            instances.len() == words(rendered@).len(),
                            dep_params.len() == dep.with.len(),
                            forall|j: int| 0 <= j < dep.with.len() ==> (#[trigger] dep_params@[j]).0@ == dep.with@[j].0@,
                            forall|k: int|
                                0 <= k < instances.len() ==> {
                                    &&& (#[trigger] instances@[k])@.drop_last() == dep_params@
                                    &&& instances@[k]@.len() == dep_params@.len() + 1
                                    &&& instances@[k]@.last().0@ == each.var@
                                    &&& instances@[k]@.last().1@ == words(rendered@)[k]
                                },
                            job_views(dependencies@).len() == before.len() + n,
                            job_views(dependencies@).take(before.len() as int) == before,
                            forall|k: int|
                                0 <= k < n ==> child_of(
                                    *dep,
                                    table,
                                    #[trigger] job_views(dependencies@)[before.len() + k],
                                    Some((each.var@, words(rendered@)[k])),
                                ),
                        decreases instances.len() - n,
                    {
                        let child = dep_desc.realize_within(
                            dep.job.as_str(),
                            job_descriptions,
                            handlebars,
                            constants,
                            &instances[n],
                            depth - 1,
                        )?;
                        let ghost cv = (*child)@;
                        let ghost params = instances@[n as int]@;
                        proof {
                            assert(params_shape(*dep, Some((each.var@, words(rendered@)[n as int])), params)) by {
                                assert forall|j: int| 0 <= j < dep.with.len() implies (#[trigger] params[j]).0@ == dep.with@[j].0@ by {
                                    assert(params[j] == params.drop_last()[j]);
                                }
                            }
                            assert(child_of(*dep, table, cv, Some((each.var@, words(rendered@)[n as int]))));
                        }
                        let ghost prev = job_views(dependencies@);
                        dependencies.push(child);
                        assert(job_views(dependencies@) =~= prev.push(cv));
                        assert(job_views(dependencies@).take(before.len() as int) =~= prev.take(before.len() as int));
                        n += 1;
                    }
                    proof {
                        group = job_views(dependencies@).skip(before.len() as int);
                        assert(job_views(dependencies@) =~= before + group);
                        assert forall|k: int| 0 <= k < group.len() implies child_of(
                            *dep,
                            table,
                            #[trigger] group[k],
                            Some((each.var@, words(rendered@)[k])),
                        ) by {
                            assert(group[k] == job_views(dependencies@)[before.len() + k]);
                        }
                        assert(words(rendered@).len() == group.len());
                        assert(group_of(*dep, table, group));
                    }
                },
                None => {
                    proof {
                        if early is Some {
                            assert(dep_params@ =~= Seq::<(String, String)>::empty());
                            let c = choose|u: int| first_named(table, dep.job@, u);
                            assert(first_named(table, dep.job@, c));
                            assert(t == c) by {
                                if t < c {
                                    assert(table[t].0@ == dep.job@);
                                } else if c < t {
                                    assert(table[c].0@ == dep.job@);
                                }
                            }
                            assert(early == early_error(table, *dep_desc, dep.job@, dep_params@, (depth - 1) as nat));
                        }
                    }
                    let child = dep_desc.realize_within(
                        dep.job.as_str(),
                        job_descriptions,
                        handlebars,
                        constants,
                        &dep_params,
                        depth - 1,
                    )?;
                    let ghost cv = (*child)@;
                    proof {
                        assert(params_shape(*dep, None, dep_params@));
                        assert(child_of(*dep, table, cv, None));
                    }
                    dependencies.push(child);
                    proof {
                        group = seq![cv];
                        assert(job_views(dependencies@) =~= before + group);
                        assert(group_of(*dep, table, group));
                    }
                },
            }
            proof {
                lemma_group_extend(self.requires@.take(i as int), table, before, bounds, *dep, group);
                assert(self.requires@.take(i as int).push(*dep) =~= self.requires@.take(i + 1));
                bounds = bounds.push((before.len() + group.len()) as int);
            }
            i += 1;
        }

        assert(self.requires@.take(i as int) =~= self.requires@);
        let run = render_component(&job_path(name, "run"), self.run.as_str(), handlebars, &vars)?;
        let job = InnerJobRealization {
            name: remove_chars(name, '\n'),
            run,
            interactive: self.interactive,
            param_values,
            dependencies,
            inputs,
            outputs,
        };
        assert(job@.dependencies =~= job_views(job.dependencies@));
        assert(grouped_at(self.requires@, table, job@.dependencies, bounds));
        let shared = Arc::new(job);
        assert((*shared)@ == job@);
        Ok(shared)
    }
}

} // verus!
