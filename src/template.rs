//! Templates addressed by a path of components, compiled once and cached in
//! the engine's registry under the joined path.
use crate::error::ZinnError;
use crate::text::{contains_char, join, join_with, views};
use crate::vars::{distinct_bindings, distinct_names};
use handlebars::{Handlebars, RenderError, Template};
use std::collections::HashMap;
use vstd::prelude::*;

verus! {

#[verifier::external_type_specification]
#[verifier::external_body]
pub struct ExHandlebars<'reg>(Handlebars<'reg>);

#[verifier::external_type_specification]
#[verifier::external_body]
pub struct ExTemplate(Template);

/// The names under which the registry holds a template.
pub uninterp spec fn registered_templates(hb: Handlebars<'static>) -> Set<Seq<char>>;

/// Relies on `Handlebars::get_template`: a lookup of the name among the
/// registered templates.
#[verifier::external_body]
fn is_registered(hb: &Handlebars<'static>, name: &str) -> (r: bool)
    ensures
        r == registered_templates(*hb).contains(name@),
{
    hb.get_template(name).is_some()
}

/// Relies on `Template::compile_with_name`: parses the source; a syntax error
/// is handed back as a `RenderError`.
#[verifier::external_body]
fn compile(name: &str, source: &str) -> (r: Result<Template, RenderError>) {
    Template::compile_with_name(source, name.to_string()).map_err(RenderError::from)
}

/// Relies on `Handlebars::register_template`: inserts the template under the name.
#[verifier::external_body]
fn register(hb: &mut Handlebars<'static>, name: &str, t: Template)
    ensures
        registered_templates(*final(hb)) == registered_templates(*old(hb)).insert(name@),
{
    hb.register_template(name, t)
}

/// Relies on `Handlebars::render`: renders the registered template against the
/// variables, one binding per name, handed over as a map. The result also
/// depends on what the registered helpers do, which may run shell commands,
/// so nothing is stated of it.
#[verifier::external_body]
fn render(hb: &Handlebars<'static>, name: &str, vars: &Vec<(String, String)>) -> (r: Result<String, RenderError>)
    requires
        distinct_names(vars@),
{
    let ctx: HashMap<&str, &str> = vars.iter().map(|(k, v)| (k.as_str(), v.as_str())).collect();
    hb.render(name, &ctx)
}

/// The character that joins path components into a template name.
pub open spec fn separator() -> char {
    ':'
}

/// The registry name of the template at `path`.
pub open spec fn template_name(path: Seq<String>) -> Seq<char> {
    join_with(views(path), seq![separator()])
}

/// The index of the first component of `path` that holds the separator.
pub open spec fn first_with_separator(path: Seq<String>, k: int) -> bool {
    &&& 0 <= k < path.len()
    &&& path[k]@.contains(separator())
    &&& forall|j: int| 0 <= j < k ==> !path[j]@.contains(separator())
}

/// Renders `template` as the template named by `path` against `vars`,
/// compiling and registering it on first use.
pub fn render_component(
    path: &Vec<String>,
    template: &str,
    handlebars: &mut Handlebars<'static>,
    vars: &Vec<(String, String)>,
) -> (r: Result<String, ZinnError>)
    requires
        path.len() > 0,
    ensures
        !(r matches Err(ZinnError::JobNotFound(_))),
        (exists|k: int| first_with_separator(path@, k)) ==> {
            &&& *final(handlebars) == *old(handlebars)
            &&& exists|k: int| first_with_separator(path@, k) && (r matches Err(ZinnError::ColonInTemplateName(c)) && c@ == path@[k]@)
        },
        (forall|k: int| 0 <= k < path.len() ==> !path@[k]@.contains(separator())) ==> {
            let old_names = registered_templates(*old(handlebars));
            let new_names = registered_templates(*final(handlebars));
            &&& old_names.contains(template_name(path@)) ==> new_names == old_names
            &&& new_names == old_names || new_names == old_names.insert(template_name(path@))
            &&& r is Ok ==> new_names == old_names.insert(template_name(path@))
            &&& r is Err ==> r matches Err(ZinnError::TemplateError(_))
        },
{
    let mut i: usize = 0;
    while i < path.len()
        invariant
            i <= path.len(),
            forall|j: int| 0 <= j < i ==> !path@[j]@.contains(separator()),
        decreases path.len() - i,
    {
        if contains_char(path[i].as_str(), ':') {
            assert(first_with_separator(path@, i as int));
            return Err(ZinnError::ColonInTemplateName(path[i].clone()));
        }
        i += 1;
    }
    let sep = ":";
    proof {
        reveal_strlit(":");
        assert(sep@ =~= seq![separator()]);
    }
    let name = join(path, sep);
    if !is_registered(handlebars, name.as_str()) {
        match compile(name.as_str(), template) {
            Ok(t) => register(handlebars, name.as_str(), t),
            Err(e) => return Err(ZinnError::TemplateError(e)),
        }
    } else {
        assert(registered_templates(*handlebars).insert(name@) =~= registered_templates(*handlebars));
    }
    let context = distinct_bindings(vars);
    match render(handlebars, name.as_str(), &context) {
        Ok(s) => Ok(s),
        Err(e) => Err(ZinnError::TemplateError(e)),
    }
}

} // verus!
