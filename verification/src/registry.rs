//! Variants by their names.
use crate::marker::{
    by_name, default_variants, parameters_of, sim180c88_parameters, sim48c12_parameters,
    sim48c16_parameters, sim48c8_parameters, sim96c32_parameters, MarkerSpec, Parameters,
};
use crate::text::{fields, same_text, split_commas};
use vstd::prelude::*;

verus! {

/// The parameters of the variants that the first `n` names stand for. Names
/// that stand for none are passed over.
pub open spec fn parameters_named(names: Seq<Seq<char>>, n: nat) -> Seq<Parameters>
    decreases n,
{
    if n == 0 {
        seq![]
    } else {
        let before = parameters_named(names, (n - 1) as nat);
        match parameters_of(names[n - 1]) {
            Some(p) => before.push(p),
            None => before,
        }
    }
}

/// Whether these are the variants with the given parameters.
pub open spec fn are(markers: Seq<MarkerSpec>, parameters: Seq<Parameters>) -> bool {
    &&& markers.len() == parameters.len()
    &&& forall|i: int|
        0 <= i < markers.len() ==> (#[trigger] markers[i]).is(parameters[i]) && markers[i].wf()
            && markers[i].sync_unique()
}

/// The parameters of the variants that are looked for by default.
pub open spec fn default_parameters() -> Seq<Parameters> {
    seq![sim48c12_parameters(), sim96c32_parameters(), sim180c88_parameters()]
}

/// The variants in a list of names that is separated by commas.
pub fn variants_named(list: &str) -> (r: Vec<MarkerSpec>)
    ensures
        are(r@, parameters_named(fields(list@), fields(list@).len())),
{
    let names = split_commas(list);
    let n = names.len();
    let mut r: Vec<MarkerSpec> = Vec::new();
    let mut i: usize = 0;
    while i < n
        invariant
            n == names@.len(),
            n == fields(list@).len(),
            forall|i: int| 0 <= i < names@.len() ==> (#[trigger] names@[i])@ == fields(list@)[i],
            i <= n,
            are(r@, parameters_named(fields(list@), i as nat)),
        decreases n - i,
    {
        assert(names@[i as int]@ == fields(list@)[i as int]);
        if let Some(m) = by_name(names[i]) {
            r.push(m);
        }
        i += 1;
    }
    r
}

/// The variants in a list of names that is separated by commas, if every name
/// stands for one.
pub fn variants_all_named(list: &str) -> (r: Option<Vec<MarkerSpec>>)
    ensures
        ({
            let names = fields(list@);
            let named = parameters_named(names, names.len());
            match r {
                Some(v) => are(v@, named) && forall|i: int|
                    0 <= i < names.len() ==> parameters_of(#[trigger] names[i]) is Some,
                None => exists|i: int|
                    0 <= i < names.len() && parameters_of(#[trigger] names[i]) is None,
            }
        }),
{
    let names = split_commas(list);
    let n = names.len();
    let mut r: Vec<MarkerSpec> = Vec::new();
    let mut i: usize = 0;
    while i < n
        invariant
            n == names@.len(),
            n == fields(list@).len(),
            forall|i: int| 0 <= i < names@.len() ==> (#[trigger] names@[i])@ == fields(list@)[i],
            i <= n,
            are(r@, parameters_named(fields(list@), i as nat)),
            forall|k: int| 0 <= k < i ==> parameters_of(#[trigger] fields(list@)[k]) is Some,
        decreases n - i,
    {
        assert(names@[i as int]@ == fields(list@)[i as int]);
        match by_name(names[i]) {
            Some(m) => r.push(m),
            None => return None,
        }
        i += 1;
    }
    Some(r)
}

/// The variant of a name, which may also be empty or `auto` for the default
/// ones. The default ones are also given for an unknown name, and that the
/// name is unknown.
pub fn pinned_or_default(name: &str) -> (r: (Vec<MarkerSpec>, bool))
    ensures
        r.1 == (name@.len() > 0 && name@ != "auto"@ && parameters_of(name@) is None),
        are(
            r.0@,
            match parameters_of(name@) {
                Some(p) if name@.len() > 0 && name@ != "auto"@ => seq![p],
                _ => default_parameters(),
            },
        ),
{
    if name.unicode_len() == 0 || same_text(name, "auto") {
        return (default_variants(), false);
    }
    match by_name(name) {
        Some(m) => {
            let mut r: Vec<MarkerSpec> = Vec::new();
            r.push(m);
            (r, false)
        },
        None => (default_variants(), true),
    }
}

/// The variants to look for: those in the list or, where the list is empty,
/// says `auto` or names none, the default ones.
pub fn variants_or_default(list: &str) -> (r: Vec<MarkerSpec>)
    ensures
        ({
            let named = parameters_named(fields(list@), fields(list@).len());
            are(
                r@,
                if list@.len() == 0 || list@ == "auto"@ || named.len() == 0 {
                    default_parameters()
                } else {
                    named
                },
            )
        }),
{
    if list.unicode_len() == 0 || same_text(list, "auto") {
        return default_variants();
    }
    let r = variants_named(list);
    if r.len() == 0 {
        return default_variants();
    }
    r
}

/// The names of a variant are interchangeable, and stand for no other.
pub proof fn law_names_stand_for_variants()
    ensures
        parameters_of("sim48c8"@) == Some(sim48c8_parameters()),
        parameters_of("s256"@) == Some(sim48c8_parameters()),
        parameters_of("T"@) == Some(sim48c8_parameters()),
        parameters_of("sim96c32"@) == Some(sim96c32_parameters()),
        parameters_of("s16m"@) == Some(sim96c32_parameters()),
        parameters_of("M"@) == Some(sim96c32_parameters()),
        parameters_of("sim180c88"@) == Some(sim180c88_parameters()),
        parameters_of("sdata"@) == Some(sim180c88_parameters()),
        parameters_of("D"@) == Some(sim180c88_parameters()),
        parameters_of("sim48c16"@) == Some(sim48c16_parameters()),
        parameters_of("s64k"@) == Some(sim48c16_parameters()),
        parameters_of("sim48c12"@) == Some(sim48c12_parameters()),
        parameters_of("s4k"@) == Some(sim48c12_parameters()),
{
    reveal_strlit("sim48c8");
    reveal_strlit("s256");
    reveal_strlit("T");
    reveal_strlit("sim96c32");
    reveal_strlit("s16m");
    reveal_strlit("M");
    reveal_strlit("sim180c88");
    reveal_strlit("sdata");
    reveal_strlit("D");
    reveal_strlit("sim48c16");
    reveal_strlit("s64k");
    reveal_strlit("sim48c12");
    reveal_strlit("s4k");
    // Names of different lengths differ; those of one length differ in a letter.
    assert("T"@.len() == 1 && "s4k"@.len() == 3 && "s256"@.len() == 4 && "sdata"@.len() == 5);
    assert("sim48c8"@.len() == 7 && "sim96c32"@.len() == 8 && "sim180c88"@.len() == 9);
    assert("s16m"@.len() == 4 && "s64k"@.len() == 4 && "M"@.len() == 1 && "D"@.len() == 1);
    assert("sim48c16"@.len() == 8 && "sim48c12"@.len() == 8);
    assert("sim96c32"@[3] == '9' && "sim48c16"@[3] == '4' && "sim48c12"@[3] == '4');
    assert("sim48c16"@[7] == '6' && "sim48c12"@[7] == '2');
    assert("s256"@[1] == '2' && "s16m"@[1] == '1' && "s64k"@[1] == '6');
    assert("T"@[0] == 'T' && "M"@[0] == 'M' && "D"@[0] == 'D');
}

/// Each variant goes by its own name and alias.
pub proof fn law_variants_go_by_their_names(p: Parameters)
    requires
        p == sim48c8_parameters() || p == sim96c32_parameters() || p == sim180c88_parameters()
            || p == sim48c16_parameters() || p == sim48c12_parameters(),
    ensures
        parameters_of(p.name) == Some(p),
        parameters_of(p.alias) == Some(p),
{
    law_names_stand_for_variants();
}

} // verus!
