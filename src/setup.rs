//! Preparing a run: command-line bindings, the constants of a Zinnfile, and
//! filling the queue with the targets and everything they depend on.
use crate::error::{ZinnError, ZinnResult};
use crate::job::{find_job, listed, reaches, JobDescription, JobView};
use crate::queue::lemma_enqueued_grows;
use crate::text::remove_char;
use crate::queue::{JobState, Queue};
use crate::template::{first_with_separator, registered_templates, render_component, separator, template_name};
use crate::text::{chars_of, join_with, views};
use crate::text::string_from_chars;
use handlebars::Handlebars;
use vstd::prelude::*;

verus! {

/// Splits `KEY=value` at its first `=`.
pub open spec fn split_key_val(s: Seq<char>, pos: int) -> bool {
    &&& 0 <= pos < s.len()
    &&& s[pos] == '='
    &&& forall|j: int| 0 <= j < pos ==> s[j] != '='
}

/// Parses a `KEY=value` binding given on the command line: the key is what
/// stands before the first `=`, the value what follows it.
pub fn parse_key_val(s: &str) -> (r: Result<(String, String), String>)
    ensures
        r is Ok <==> s@.contains('='),
        r matches Ok((k, v)) ==> exists|pos: int|
            split_key_val(s@, pos) && k@ == s@.take(pos) && v@ == s@.skip(pos + 1),
        r matches Err(m) ==> m@ == "invalid KEY=value: no `=` found in `"@ + s@ + "`"@,
{
    let cs = chars_of(s);
    let mut i: usize = 0;
    while i < cs.len()
        invariant
            i <= cs.len(),
            cs@ == s@,
            forall|j: int| 0 <= j < i ==> cs@[j] != '=',
        decreases cs.len() - i,
    {
        if cs[i] == '=' {
            let mut key: Vec<char> = Vec::new();
            let mut val: Vec<char> = Vec::new();
            let mut j: usize = 0;
            while j < cs.len()
                invariant
                    i < cs.len(),
                    j <= cs.len(),
                    j <= i ==> key@ == cs@.take(j as int) && val@.len() == 0,
                    j > i ==> key@ == cs@.take(i as int) && val@ == cs@.subrange(i + 1, j as int),
                decreases cs.len() - j,
            {
                if j < i {
                    key.push(cs[j]);
                    assert(key@ =~= cs@.take(j + 1));
                } else if j > i {
                    val.push(cs[j]);
                    assert(val@ =~= cs@.subrange(i + 1, j + 1));
                } else {
                    assert(val@ =~= cs@.subrange(i + 1, j + 1));
                }
                j += 1;
            }
            assert(cs@.subrange(i + 1, cs.len() as int) =~= s@.skip(i + 1));
            assert(split_key_val(s@, i as int));
            return Ok((string_from_chars(&key), string_from_chars(&val)));
        }
        i += 1;
    }
    let mut msg = String::from_str("invalid KEY=value: no `=` found in `");
    msg.append(s);
    msg.append("`");
    Err(msg)
}

/// Renders the constants in order: each against the ones rendered before it.
pub fn render_constants(
    constants: &Vec<(String, String)>,
    handlebars: &mut Handlebars<'static>,
) -> (r: ZinnResult<Vec<(String, String)>>)
    ensures
        constants.len() == 0 ==> (r matches Ok(v) && v.len() == 0),
        constants.len() > 0 && constants@[0].0@.contains(':') ==> (r matches Err(
            ZinnError::ColonInTemplateName(n),
        ) && n@ == constants@[0].0@),
        r matches Ok(rendered) ==> rendered.len() == constants.len() && forall|i: int|
            0 <= i < rendered.len() ==> (#[trigger] rendered@[i]).0 == constants@[i].0,
        r is Ok ==> forall|i: int|
            0 <= i < constants.len() ==> registered_templates(*final(handlebars)).contains(
                #[trigger] constant_template(constants@[i].0@),
            ),
{
    let mut rendered: Vec<(String, String)> = Vec::new();
    let mut i: usize = 0;
    while i < constants.len()
        invariant
            i <= constants.len(),
            rendered.len() == i,
            i > 0 ==> !constants@[0].0@.contains(':'),
            forall|k: int| 0 <= k < i ==> (#[trigger] rendered@[k]).0 == constants@[k].0,
            forall|k: int|
                0 <= k < i ==> registered_templates(*handlebars).contains(
                    #[trigger] constant_template(constants@[k].0@),
                ),
        decreases constants.len() - i,
    {
        let name = &constants[i].0;
        let path = vec![String::from_str("constants"), name.clone()];
        let ghost before = registered_templates(*handlebars);
        proof {
            reveal_strlit("constants");
            assert(views(path@) =~= seq!["constants"@, name@]);
            if name@.contains(':') {
                assert(!path@[0]@.contains(':')) by {
                    assert("constants"@ =~= seq!['c', 'o', 'n', 's', 't', 'a', 'n', 't', 's']);
                }
                assert(first_with_separator(path@, 1));
                assert(forall|k: int| first_with_separator(path@, k) ==> k == 1);
            } else {
                assert forall|k: int| 0 <= k < path.len() implies !path@[k]@.contains(separator()) by {
                    if k == 0 {
                        assert("constants"@ =~= seq!['c', 'o', 'n', 's', 't', 'a', 'n', 't', 's']);
                    }
                }
            }
        }
        let value = render_component(&path, constants[i].1.as_str(), handlebars, &rendered)?;
        proof {
            assert(!name@.contains(':'));
            assert(template_name(path@) == constant_template(name@));
            assert forall|k: int| 0 <= k < i + 1 implies registered_templates(*handlebars).contains(
                #[trigger] constant_template(constants@[k].0@),
            ) by {
                if k < i {
                    assert(before.contains(constant_template(constants@[k].0@)));
                }
            }
        }
        rendered.push((name.clone(), value));
        i += 1;
    }
    Ok(rendered)
}

/// The registry name of the template of the constant `name`.
pub open spec fn constant_template(name: Seq<char>) -> Seq<char> {
    join_with(seq!["constants"@, name], seq![':'])
}

/// The table has a job named `name`.
pub open spec fn has_job(table: Seq<(String, JobDescription)>, name: Seq<char>) -> bool {
    exists|k: int| 0 <= k < table.len() && (#[trigger] table[k]).0@ == name
}

/// Some pending job realizes the target `name`, and every job it depends on
/// is pending too.
pub open spec fn target_pending(pending: Seq<JobView>, name: Seq<char>) -> bool {
    exists|v: JobView|
        #[trigger] pending.contains(v) && v.name == remove_char(name, '\n') && forall|d: JobView|
            reaches(v, d) ==> #[trigger] pending.contains(d)
}

proof fn lemma_target_pending_grows(p0: Seq<JobView>, p1: Seq<JobView>, name: Seq<char>)
    requires
        target_pending(p0, name),
        forall|x: JobView| p0.contains(x) ==> #[trigger] p1.contains(x),
    ensures
        target_pending(p1, name),
{
    let v = choose|v: JobView|
        #[trigger] p0.contains(v) && v.name == remove_char(name, '\n') && forall|d: JobView|
            reaches(v, d) ==> #[trigger] p0.contains(d);
    assert(p1.contains(v));
}

/// No job of the queue has started.
pub open spec fn nothing_started(q: Queue) -> bool {
    forall|v| #[trigger] q.state_of(v) is None || q.state_of(v) == Some(JobState::Ready)
}

/// Realizes each target and enqueues it after everything it depends on.
pub fn enqueue_targets(
    queue: &mut Queue,
    targets: &Vec<String>,
    job_descriptions: &Vec<(String, JobDescription)>,
    handlebars: &mut Handlebars<'static>,
    constants: &Vec<(String, String)>,
    parameters: &Vec<(String, String)>,
) -> (r: ZinnResult<()>)
    requires
        old(queue).wf(),
        nothing_started(*old(queue)),
    ensures
        final(queue).wf(),
        nothing_started(*final(queue)),
        final(queue).started_after_deps(),
        final(queue).is_done() == old(queue).is_done(),
        final(queue).is_failed() == old(queue).is_failed(),
        targets.len() == 0 ==> r is Ok && final(queue).pending() == old(queue).pending(),
        targets.len() > 0 && !has_job(job_descriptions@, targets@[0]@) ==> (r matches Err(
            ZinnError::JobNotFound(n),
        ) && n@ == targets@[0]@),
        r is Ok ==> forall|t: int|
            0 <= t < targets.len() ==> has_job(job_descriptions@, (#[trigger] targets@[t])@),
        r is Ok ==> forall|t: int|
            0 <= t < targets.len() ==> target_pending(final(queue).pending(), (#[trigger] targets@[t])@),
        r matches Err(ZinnError::JobNotFound(n)) ==> exists|t: int|
            0 <= t < targets.len() && (#[trigger] targets@[t])@ == n@ && forall|k: int|
                0 <= k < job_descriptions.len() ==> (#[trigger] job_descriptions@[k]).0@ != n@,
{
    let mut i: usize = 0;
    while i < targets.len()
        invariant
            i <= targets.len(),
            queue.wf(),
            nothing_started(*queue),
            queue.is_done() == old(queue).is_done(),
            queue.is_failed() == old(queue).is_failed(),
            i == 0 ==> queue.pending() == old(queue).pending(),
            forall|t: int| 0 <= t < i ==> has_job(job_descriptions@, (#[trigger] targets@[t])@),
            forall|t: int| 0 <= t < i ==> target_pending(queue.pending(), (#[trigger] targets@[t])@),
        decreases targets.len() - i,
    {
        let name = &targets[i];
        let desc = match find_job(job_descriptions, name.as_str()) {
            Some(d) => d,
            None => {
                assert((#[trigger] targets@[i as int])@ == name@);
                return Err(ZinnError::JobNotFound(name.clone()));
            },
        };
        assert(has_job(job_descriptions@, targets@[i as int]@));
        let job = desc.realize(name.as_str(), job_descriptions, handlebars, constants, parameters)?;
        let deps = job.transitive_dependencies();
        let ghost start = queue.pending();
        let mut k: usize = 0;
        while k < deps.len()
            invariant
                k <= deps.len(),
                queue.wf(),
                nothing_started(*queue),
                queue.is_done() == old(queue).is_done(),
                queue.is_failed() == old(queue).is_failed(),
                i < targets.len(),
                forall|t: int| 0 <= t <= i ==> has_job(job_descriptions@, (#[trigger] targets@[t])@),
                forall|x: JobView| start.contains(x) ==> #[trigger] queue.pending().contains(x),
                forall|m: int| 0 <= m < k ==> queue.pending().contains((*#[trigger] deps@[m])@),
            decreases deps.len() - k,
        {
            let ghost q0 = *queue;
            let d = crate::job::share(&deps[k]);
            queue.enqueue(d);
            proof {
                lemma_enqueued_grows(q0, (*deps@[k as int])@, *queue);
                assert forall|m: int| 0 <= m < k + 1 implies queue.pending().contains((*#[trigger] deps@[m])@) by {
                    if m < k {
                        assert(q0.pending().contains((*deps@[m])@));
                    }
                }
            }
            k += 1;
        }
        let ghost q0 = *queue;
        let ghost jv = (*job)@;
        queue.enqueue(job);
        proof {
            lemma_enqueued_grows(q0, jv, *queue);
            assert forall|x: JobView| start.contains(x) implies #[trigger] queue.pending().contains(x) by {
                assert(q0.pending().contains(x));
            }
            assert forall|dd: JobView| reaches(jv, dd) implies #[trigger] queue.pending().contains(dd) by {
                assert(listed(deps@, dd));
                let m = choose|m: int| 0 <= m < deps.len() && (*#[trigger] deps@[m])@ == dd;
                assert(q0.pending().contains((*deps@[m])@));
            }
            assert(queue.pending().contains(jv));
            assert(target_pending(queue.pending(), targets@[i as int]@));
            assert forall|t: int| 0 <= t < i + 1 implies target_pending(queue.pending(), (#[trigger] targets@[t])@) by {
                if t < i {
                    lemma_target_pending_grows(start, queue.pending(), targets@[t]@);
                }
            }
        }
        i += 1;
    }
    Ok(())
}

} // verus!
