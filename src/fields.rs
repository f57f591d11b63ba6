//! Field names: which are attributed to the source, and how a name becomes
//! a placeholder type.
use vstd::prelude::*;
use crate::text::{chars_of, chars_eq, starts_with_chars, string_of, to_upper, upper_of};

verus! {

/// Fields that name where a line came from; they never shape a template.
pub open spec fn is_source_field(f: Seq<char>) -> bool {
    f == "host"@ || f == "hostname"@ || f == "service"@ || (f.len() >= 11 && f.subrange(0, 11)
        == "kubernetes."@) || f == "pod"@ || f == "namespace"@ || f == "container"@ || f
        == "container_id"@
}

/// Whether a field is left out of templates (see `is_source_field`).
pub fn should_skip_field(field_name: &str) -> (r: bool)
    ensures
        r == is_source_field(field_name@),
{
    let f = chars_of(field_name);
    let k8s = chars_of("kubernetes.");
    proof {
        reveal_strlit("kubernetes.");
    }
    chars_eq(&f, &chars_of("host")) || chars_eq(&f, &chars_of("hostname")) || chars_eq(
        &f,
        &chars_of("service"),
    ) || starts_with_chars(&f, &k8s) || chars_eq(&f, &chars_of("pod")) || chars_eq(
        &f,
        &chars_of("namespace"),
    ) || chars_eq(&f, &chars_of("container")) || chars_eq(&f, &chars_of("container_id"))
}

/// `-` and `.` become `_`.
pub open spec fn underscored(s: Seq<char>) -> Seq<char> {
    s.map_values(|c: char| if c == '-' || c == '.' { '_' } else { c })
}

/// The placeholder type of a field: its name in upper case, with `-` and `.` as `_`.
pub open spec fn field_type(f: Seq<char>) -> Seq<char> {
    underscored(upper_of(f))
}

/// The placeholder type of a field (see `field_type`).
pub fn field_type_exec(f: &Vec<char>) -> (r: Vec<char>)
    ensures
        r@ == field_type(f@),
{
    let s = string_of(f.as_slice());
    let up = to_upper(s.as_str());
    let u = chars_of(up.as_str());
    let mut r: Vec<char> = Vec::new();
    let mut i: usize = 0;
    while i < u.len()
        invariant
            i <= u@.len(),
            r@ == underscored(u@.subrange(0, i as int)),
        decreases u@.len() - i,
    {
        let c = u[i];
        r.push(if c == '-' || c == '.' { '_' } else { c });
        assert(underscored(u@.subrange(0, i + 1)) =~= underscored(u@.subrange(0, i as int)).push(
            if c == '-' || c == '.' { '_' } else { c },
        ));
        i += 1;
    }
    assert(u@.subrange(0, u@.len() as int) =~= u@);
    r
}

} // verus!
