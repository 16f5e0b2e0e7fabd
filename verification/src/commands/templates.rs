//! Skin-art templates: the list in templates.json, finding a template's
//! image file by id, and the remote copies of both.
use vstd::prelude::*;
use crate::json::{Json, get_spec, field_str, get_str};

verus! {

/// Where the remote templates live.
pub open spec fn github_raw() -> Seq<char> {
    "https://raw.githubusercontent.com/iraqies/MySkinArt/main/templates"@
}

/// The remote templates.json.
pub fn remote_templates_json_url() -> (r: String)
    ensures
        r@ == github_raw() + "/templates.json"@,
{
    let mut r = String::from_str("https://raw.githubusercontent.com/iraqies/MySkinArt/main/templates");
    r.append("/templates.json");
    r
}

/// The remote copy of a template image.
pub fn remote_template_url(filename: &str) -> (r: String)
    ensures
        r@ == github_raw() + "/"@ + filename@,
{
    let mut r = String::from_str("https://raw.githubusercontent.com/iraqies/MySkinArt/main/templates");
    r.append("/");
    r.append(filename);
    r
}

/// The "templates" array of a templates.json document.
pub fn templates_array(doc: &Json) -> (r: Option<&Vec<Json>>)
    ensures
        match get_spec(*doc, "templates"@) {
            Some(Json::Array(a)) => r == Some(&a),
            _ => r is None,
        },
{
    match doc.get("templates") {
        Some(t) => t.as_array(),
        None => None,
    }
}

/// The first template at or after `i` whose "id" is `id`.
pub open spec fn template_with_id(templates: Seq<Json>, id: Seq<char>, i: int) -> Option<int>
    decreases templates.len() - i,
{
    if i < 0 || i >= templates.len() {
        None
    } else if field_str(templates[i], "id"@) == Some(id) {
        Some(i)
    } else {
        template_with_id(templates, id, i + 1)
    }
}

/// The "filename" of the first template whose "id" is `id`; none where no
/// template has that id or the first one has no file name.
pub fn template_filename(templates: &Vec<Json>, id: &str) -> (r: Option<String>)
    ensures
        match template_with_id(templates@, id@, 0) {
            Some(k) => match field_str(templates@[k], "filename"@) {
                Some(f) => r matches Some(x) && x@ == f,
                None => r is None,
            },
            None => r is None,
        },
{
    let mut i: usize = 0;
    while i < templates.len()
        invariant
            i <= templates@.len(),
            template_with_id(templates@, id@, 0) == template_with_id(templates@, id@, i as int),
        decreases templates@.len() - i,
    {
        let hit = match get_str(&templates[i], "id") {
            Some(x) => crate::text::str_eq(x.as_str(), id),
            None => false,
        };
        if hit {
            return get_str(&templates[i], "filename");
        }
        i = i + 1;
    }
    None
}

/// The file names that the templates give, in order; entries without one
/// are passed over.
pub open spec fn filenames_of(templates: Seq<Json>) -> Seq<Seq<char>>
    decreases templates.len(),
{
    if templates.len() == 0 {
        Seq::empty()
    } else {
        let rest = filenames_of(templates.drop_last());
        match field_str(templates.last(), "filename"@) {
            Some(f) => rest.push(f),
            None => rest,
        }
    }
}

/// The image files that the templates list.
pub fn template_filenames(templates: &Vec<Json>) -> (r: Vec<String>)
    ensures
        r@.len() == filenames_of(templates@).len(),
        forall|j: int| 0 <= j < r@.len() ==> #[trigger] r@[j]@ == filenames_of(templates@)[j],
{
    let mut out: Vec<String> = Vec::new();
    let mut i: usize = 0;
    while i < templates.len()
        invariant
            i <= templates@.len(),
            out@.len() == filenames_of(templates@.take(i as int)).len(),
            forall|j: int| 0 <= j < out@.len() ==> #[trigger] out@[j]@ == filenames_of(templates@.take(i as int))[j],
        decreases templates@.len() - i,
    {
        assert(templates@.take(i + 1).drop_last() == templates@.take(i as int));
        assert(templates@.take(i + 1).last() == templates@[i as int]);
        match get_str(&templates[i], "filename") {
            Some(f) => out.push(f),
            None => {},
        }
        i = i + 1;
    }
    assert(templates@.take(templates@.len() as int) == templates@);
    out
}

} // verus!
