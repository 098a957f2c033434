//! Loading PDDL text: parsing a domain, a problem, or a file of several
//! definitions, and choosing the domain and problem to plan with.

use vstd::prelude::*;
use crate::error::MiniplanError;
use crate::pddl_model::{parse_domain_text, parse_problem_text, parse_file_text, parsed_domain, parsed_problem, parsed_file};
use crate::text::{concat, decimal, decimal_string};

pub use crate::pddl_model::{PddlDomain, PddlProblem, PddlFile};

verus! {

/// Names joined with `", "`.
pub open spec fn joined(names: Seq<Seq<char>>) -> Seq<char>
    decreases names.len(),
{
    if names.len() == 0 {
        Seq::empty()
    } else if names.len() == 1 {
        names[0]
    } else {
        joined(names.drop_last()) + ", "@ + names.last()
    }
}

/// The names of domains, in order.
pub open spec fn domain_names_of(ds: Seq<PddlDomain>) -> Seq<Seq<char>> {
    ds.map_values(|d: PddlDomain| d.name@)
}

/// The names of problems, in order.
pub open spec fn problem_names_of(ps: Seq<PddlProblem>) -> Seq<Seq<char>> {
    ps.map_values(|p: PddlProblem| p.name@)
}

/// The message when no definition of a kind is found.
pub open spec fn none_found(kind: Seq<char>) -> Seq<char> {
    "no "@ + kind + " definition found"@
}

/// The message when several definitions of a kind are found and one must be
/// named.
pub open spec fn several_found(kind: Seq<char>, n: nat, hint: Seq<char>, names: Seq<Seq<char>>) -> Seq<char> {
    "multiple "@ + kind + " definitions found ("@ + decimal(n) + "); "@ + hint + ": "@ + joined(names)
}

/// The message when the named definition of a kind is not among those found.
pub open spec fn not_found(kind: Seq<char>, name: Seq<char>, names: Seq<Seq<char>>) -> Seq<char> {
    kind + " '"@ + name + "' not found; available: "@ + joined(names)
}

/// The position of the first name equal to `name`.
pub open spec fn first_index(names: Seq<Seq<char>>, name: Seq<char>) -> Option<int>
    decreases names.len(),
{
    if names.len() == 0 {
        None
    } else {
        match first_index(names.drop_last(), name) {
            Some(i) => Some(i),
            None => if names.last() == name { Some(names.len() - 1) } else { None },
        }
    }
}

/// Joins names with `", "`.
pub fn join_names(names: &Vec<String>) -> (r: String)
    ensures
        r@ == joined(names@.map_values(|s: String| s@)),
{
    let ghost all = names@.map_values(|s: String| s@);
    let n = names.len();
    let mut r = String::new();
    for i in 0..n
        invariant
            n == names@.len(),
            all == names@.map_values(|s: String| s@),
            r@ == joined(all.take(i as int)),
    {
        proof {
            assert(all.take(i + 1).drop_last() =~= all.take(i as int));
            assert(all.take(i + 1).last() == names@[i as int]@);
        }
        if i == 0 {
            r = names[0].clone();
            proof {
                assert(all.take(1) =~= seq![names@[0]@]);
            }
        } else {
            let with_comma = concat(r.as_str(), ", ");
            r = concat(with_comma.as_str(), names[i].as_str());
        }
    }
    proof {
        assert(all.take(n as int) =~= all);
    }
    r
}

/// The names of domains, as strings.
fn domain_name_list(ds: &Vec<PddlDomain>) -> (r: Vec<String>)
    ensures
        r@.map_values(|s: String| s@) == domain_names_of(ds@),
{
    let mut r: Vec<String> = Vec::new();
    let n = ds.len();
    for i in 0..n
        invariant
            n == ds@.len(),
            r@.map_values(|s: String| s@) == domain_names_of(ds@).take(i as int),
    {
        let ghost before = r@;
        r.push(ds[i].name.clone());
        proof {
            assert(r@.map_values(|s: String| s@) =~= before.map_values(|s: String| s@).push(ds@[i as int].name@));
            assert(domain_names_of(ds@).take(i + 1) =~= domain_names_of(ds@).take(i as int).push(ds@[i as int].name@));
        }
    }
    assert(domain_names_of(ds@).take(n as int) =~= domain_names_of(ds@));
    r
}

/// The names of problems, as strings.
fn problem_name_list(ps: &Vec<PddlProblem>) -> (r: Vec<String>)
    ensures
        r@.map_values(|s: String| s@) == problem_names_of(ps@),
{
    let mut r: Vec<String> = Vec::new();
    let n = ps.len();
    for i in 0..n
        invariant
            n == ps@.len(),
            r@.map_values(|s: String| s@) == problem_names_of(ps@).take(i as int),
    {
        let ghost before = r@;
        r.push(ps[i].name.clone());
        proof {
            assert(r@.map_values(|s: String| s@) =~= before.map_values(|s: String| s@).push(ps@[i as int].name@));
            assert(problem_names_of(ps@).take(i + 1) =~= problem_names_of(ps@).take(i as int).push(ps@[i as int].name@));
        }
    }
    assert(problem_names_of(ps@).take(n as int) =~= problem_names_of(ps@));
    r
}

/// The domain names joined with `", "`.
pub fn domain_names(domains: &Vec<PddlDomain>) -> (r: String)
    ensures
        r@ == joined(domain_names_of(domains@)),
{
    join_names(&domain_name_list(domains))
}

/// The problem names joined with `", "`.
pub fn problem_names(problems: &Vec<PddlProblem>) -> (r: String)
    ensures
        r@ == joined(problem_names_of(problems@)),
{
    join_names(&problem_name_list(problems))
}

/// The position of the first name equal to `name`, by a scan.
fn find_first(names: &Vec<String>, name: &str) -> (r: Option<usize>)
    ensures
        match r {
            Some(i) => first_index(names@.map_values(|s: String| s@), name@) == Some(i as int),
            None => first_index(names@.map_values(|s: String| s@), name@) is None,
        },
{
    let ghost all = names@.map_values(|s: String| s@);
    let target = name.to_owned();
    let n = names.len();
    for i in 0..n
        invariant
            n == names@.len(),
            all == names@.map_values(|s: String| s@),
            target@ == name@,
            first_index(all.take(i as int), name@) is None,
    {
        proof {
            assert(all.take(i + 1).drop_last() =~= all.take(i as int));
            assert(all.take(i + 1).last() == names@[i as int]@);
        }
        if names[i] == target {
            proof {
                lemma_first_index_prefix(all, name@, i as int + 1);
            }
            return Some(i);
        }
    }
    proof {
        assert(all.take(n as int) =~= all);
    }
    None
}

proof fn lemma_first_index_prefix(names: Seq<Seq<char>>, name: Seq<char>, k: int)
    requires
        0 <= k <= names.len(),
        first_index(names.take(k), name) is Some,
    ensures
        first_index(names, name) == first_index(names.take(k), name),
    decreases names.len() - k,
{
    if k < names.len() {
        assert(names.take(k + 1).drop_last() =~= names.take(k));
        lemma_first_index_prefix(names, name, k + 1);
    } else {
        assert(names.take(k) =~= names);
    }
}

/// A first index is an index of that name.
proof fn lemma_first_index(names: Seq<Seq<char>>, name: Seq<char>)
    ensures
        first_index(names, name) matches Some(i) ==> 0 <= i < names.len() && names[i] == name,
    decreases names.len(),
{
    if names.len() > 0 {
        lemma_first_index(names.drop_last(), name);
    }
}

/// The parse error of a text, as the library's error.
pub open spec fn parse_error(e: MiniplanError, msg: Seq<char>) -> bool {
    e matches MiniplanError::Parse(s) && s@ == msg
}

/// Parses a domain; a parse failure is a `Parse` error with the parser's
/// message.
pub fn load_domain_str(s: &str) -> (r: Result<PddlDomain, MiniplanError>)
    ensures
        match parsed_domain(s@) {
            Ok(d) => r == Ok::<PddlDomain, MiniplanError>(d),
            Err(m) => r matches Err(e) && parse_error(e, m),
        },
{
    match parse_domain_text(s) {
        Ok(d) => Ok(d),
        Err(m) => Err(MiniplanError::Parse(m)),
    }
}

/// Parses a problem; a parse failure is a `Parse` error with the parser's
/// message.
pub fn load_problem_str(s: &str) -> (r: Result<PddlProblem, MiniplanError>)
    ensures
        match parsed_problem(s@) {
            Ok(p) => r == Ok::<PddlProblem, MiniplanError>(p),
            Err(m) => r matches Err(e) && parse_error(e, m),
        },
{
    match parse_problem_text(s) {
        Ok(p) => Ok(p),
        Err(m) => Err(MiniplanError::Parse(m)),
    }
}

/// Parses a text of several definitions; a parse failure is a `Parse`
/// error with the parser's message.
pub fn load_pddl_file_str(s: &str) -> (r: Result<PddlFile, MiniplanError>)
    ensures
        match parsed_file(s@) {
            Ok(f) => r == Ok::<PddlFile, MiniplanError>(f),
            Err(m) => r matches Err(e) && parse_error(e, m),
        },
{
    match parse_file_text(s) {
        Ok(f) => Ok(f),
        Err(m) => Err(MiniplanError::Parse(m)),
    }
}

/// The outcome of choosing the only domain and problem of a file: an error
/// message, or the two positions (always the first).
pub open spec fn combined_choice(ds: Seq<Seq<char>>, ps: Seq<Seq<char>>) -> Result<(int, int), Seq<char>> {
    if ds.len() == 0 {
        Err(none_found("domain"@))
    } else if ps.len() == 0 {
        Err(none_found("problem"@))
    } else if ds.len() > 1 {
        Err(several_found("domain"@, ds.len(), "use --domain to select one"@, ds))
    } else if ps.len() > 1 {
        Err(several_found("problem"@, ps.len(), "use --problem to select one"@, ps))
    } else {
        Ok((0, 0))
    }
}

/// The outcome of choosing a definition by an optional name, as a file's
/// single-text selection does: a single definition is taken unless a
/// different name is given; among several, a name is required.
pub open spec fn named_choice(kind: Seq<char>, flag: Seq<char>, names: Seq<Seq<char>>, wanted: Option<Seq<char>>) -> Result<int, Seq<char>> {
    if names.len() == 0 {
        Err(none_found(kind))
    } else if names.len() == 1 {
        match wanted {
            Some(n) => if names[0] != n { Err(not_found(kind, n, names)) } else { Ok(0) },
            None => Ok(0),
        }
    } else {
        match wanted {
            None => Err(several_found(kind, names.len(), flag + " is required"@, names)),
            Some(n) => match first_index(names, n) {
                Some(i) => Ok(i),
                None => Err(not_found(kind, n, names)),
            },
        }
    }
}

/// Chooses by an optional name among names, as `named_choice` says.
fn choose_named(kind: &str, flag: &str, names: &Vec<String>, wanted: Option<&str>) -> (r: Result<usize, String>)
    ensures
        match named_choice(kind@, flag@, names@.map_values(|s: String| s@), match wanted {
            Some(w) => Some(w@),
            None => None,
        }) {
            Ok(i) => r == Ok::<usize, String>(i as usize),
            Err(m) => r matches Err(s) && s@ == m,
        },
{
    let ghost all = names@.map_values(|s: String| s@);
    if names.len() == 0 {
        let a = concat("no ", kind);
        return Err(concat(a.as_str(), " definition found"));
    }
    let listed = join_names(names);
    if names.len() == 1 {
        match wanted {
            Some(n) => {
                let target = n.to_owned();
                if names[0] != target {
                    return Err(not_found_message(kind, n, listed.as_str()));
                }
                return Ok(0);
            },
            None => {
                return Ok(0);
            },
        }
    }
    match wanted {
        None => {
            let hint = concat(flag, " is required");
            Err(several_message(kind, names.len(), hint.as_str(), listed.as_str()))
        },
        Some(n) => {
            match find_first(names, n) {
                Some(i) => {
                    proof {
                        lemma_first_index(all, n@);
                    }
                    Ok(i)
                },
                None => Err(not_found_message(kind, n, listed.as_str())),
            }
        },
    }
}

/// The message `kind 'name' not found; available: listed`.
fn not_found_message(kind: &str, name: &str, listed: &str) -> (r: String)
    ensures
        r@ == kind@ + " '"@ + name@ + "' not found; available: "@ + listed@,
{
    let a = concat(kind, " '");
    let b = concat(a.as_str(), name);
    let c = concat(b.as_str(), "' not found; available: ");
    concat(c.as_str(), listed)
}

/// The message `multiple kind definitions found (n); hint: listed`.
fn several_message(kind: &str, n: usize, hint: &str, listed: &str) -> (r: String)
    ensures
        r@ == "multiple "@ + kind@ + " definitions found ("@ + decimal(n as nat) + "); "@ + hint@ + ": "@ + listed@,
{
    let a = concat("multiple ", kind);
    let b = concat(a.as_str(), " definitions found (");
    let count = decimal_string(n as u64);
    let c = concat(b.as_str(), count.as_str());
    let d = concat(c.as_str(), "); ");
    let e = concat(d.as_str(), hint);
    let f = concat(e.as_str(), ": ");
    concat(f.as_str(), listed)
}

/// The outcome of choosing the only domain and problem of a parsed text.
pub open spec fn combined_outcome(file: PddlFile, r: Result<(PddlDomain, PddlProblem), MiniplanError>) -> bool {
    match combined_choice(domain_names_of(file.domains@), problem_names_of(file.problems@)) {
        Ok(_) => r matches Ok((d, p)) && d == file.domains@[0] && p == file.problems@[0],
        Err(m) => r matches Err(e) && parse_error(e, m),
    }
}

/// Chooses the only domain and problem of a parsed text: none of either, or
/// several of either, is a `Parse` error with the message of
/// `combined_choice`.
pub fn select_combined(file: PddlFile) -> (r: Result<(PddlDomain, PddlProblem), MiniplanError>)
    ensures
        combined_outcome(file, r),
{
    let ghost dn = domain_names_of(file.domains@);
    let ghost pn = problem_names_of(file.problems@);
    proof {
        reveal_strlit("domain");
        reveal_strlit("problem");
        reveal_strlit("use --domain to select one");
        reveal_strlit("use --problem to select one");
    }
    let PddlFile { domains, problems } = file;
    if domains.len() == 0 {
        return Err(MiniplanError::Parse(none_found_message("domain")));
    }
    if problems.len() == 0 {
        return Err(MiniplanError::Parse(none_found_message("problem")));
    }
    if domains.len() > 1 {
        let listed = domain_names(&domains);
        return Err(MiniplanError::Parse(several_message("domain", domains.len(), "use --domain to select one", listed.as_str())));
    }
    if problems.len() > 1 {
        let listed = problem_names(&problems);
        return Err(MiniplanError::Parse(several_message("problem", problems.len(), "use --problem to select one", listed.as_str())));
    }
    let mut ds = domains;
    let mut ps = problems;
    let d = ds.swap_remove(0);
    let p = ps.swap_remove(0);
    Ok((d, p))
}

/// The message `no kind definition found`.
fn none_found_message(kind: &str) -> (r: String)
    ensures
        r@ == none_found(kind@),
{
    let a = concat("no ", kind);
    concat(a.as_str(), " definition found")
}

/// Parses a text of one domain and one problem and chooses them as
/// `select_combined` does; every failure is a `Parse` error.
pub fn load_combined_str(s: &str) -> (r: Result<(PddlDomain, PddlProblem), MiniplanError>)
    ensures
        match parsed_file(s@) {
            Ok(f) => combined_outcome(f, r),
            Err(m) => r matches Err(e) && parse_error(e, m),
        },
        r matches Err(e) ==> e is Parse,
{
    match load_pddl_file_str(s) {
        Ok(f) => select_combined(f),
        Err(e) => Err(e),
    }
}

/// An optional string's characters.
pub open spec fn opt_view(o: Option<&str>) -> Option<Seq<char>> {
    match o {
        Some(s) => Some(s@),
        None => None,
    }
}

/// The outcome of choosing the domain, then the problem, of a parsed text by
/// optional names.
pub open spec fn named_outcome(
    file: PddlFile,
    dn: Option<Seq<char>>,
    pn: Option<Seq<char>>,
    r: Result<(PddlDomain, PddlProblem), MiniplanError>,
) -> bool {
    match named_choice("domain"@, "--domain"@, domain_names_of(file.domains@), dn) {
        Err(m) => r matches Err(e) && parse_error(e, m),
        Ok(i) => match named_choice("problem"@, "--problem"@, problem_names_of(file.problems@), pn) {
            Err(m) => r matches Err(e) && parse_error(e, m),
            Ok(j) => r matches Ok((d, p)) && d == file.domains@[i] && p == file.problems@[j],
        },
    }
}

/// Chooses the domain, then the problem, of a parsed text by optional
/// names, as `named_choice` says for each; a failure is a `Parse` error
/// with its message.
pub fn select_combined_named(file: PddlFile, domain_name: Option<&str>, problem_name: Option<&str>) -> (r: Result<(PddlDomain, PddlProblem), MiniplanError>)
    ensures
        named_outcome(file, opt_view(domain_name), opt_view(problem_name), r),
{
    let PddlFile { domains, problems } = file;
    let dnames = domain_name_list(&domains);
    let i = match choose_named("domain", "--domain", &dnames, domain_name) {
        Ok(i) => i,
        Err(m) => {
            return Err(MiniplanError::Parse(m));
        },
    };
    let pnames = problem_name_list(&problems);
    let j = match choose_named("problem", "--problem", &pnames, problem_name) {
        Ok(j) => j,
        Err(m) => {
            return Err(MiniplanError::Parse(m));
        },
    };
    proof {
        lemma_named_choice_in_range("domain"@, "--domain"@, dnames@.map_values(|s: String| s@), opt_view(domain_name));
        lemma_named_choice_in_range("problem"@, "--problem"@, pnames@.map_values(|s: String| s@), opt_view(problem_name));
    }
    let mut ds = domains;
    let mut ps = problems;
    let d = ds.swap_remove(i);
    let p = ps.swap_remove(j);
    Ok((d, p))
}

/// A chosen position is a position of the names.
proof fn lemma_named_choice_in_range(kind: Seq<char>, flag: Seq<char>, names: Seq<Seq<char>>, wanted: Option<Seq<char>>)
    ensures
        named_choice(kind, flag, names, wanted) matches Ok(i) ==> 0 <= i < names.len(),
{
    if let Some(n) = wanted {
        lemma_first_index(names, n);
    }
}

/// Parses a text and chooses its domain and problem by optional names, as
/// `select_combined_named` does; every failure is a `Parse` error.
pub fn load_combined_str_named(s: &str, domain_name: Option<&str>, problem_name: Option<&str>) -> (r: Result<(PddlDomain, PddlProblem), MiniplanError>)
    ensures
        match parsed_file(s@) {
            Ok(f) => named_outcome(f, opt_view(domain_name), opt_view(problem_name), r),
            Err(m) => r matches Err(e) && parse_error(e, m),
        },
        r matches Err(e) ==> e is Parse,
{
    match load_pddl_file_str(s) {
        Ok(f) => select_combined_named(f, domain_name, problem_name),
        Err(e) => Err(e),
    }
}

/// All domains of the files, in order.
pub open spec fn all_domains(files: Seq<PddlFile>) -> Seq<PddlDomain>
    decreases files.len(),
{
    if files.len() == 0 {
        Seq::empty()
    } else {
        all_domains(files.drop_last()) + files.last().domains@
    }
}

/// All problems of the files, in order.
pub open spec fn all_problems(files: Seq<PddlFile>) -> Seq<PddlProblem>
    decreases files.len(),
{
    if files.len() == 0 {
        Seq::empty()
    } else {
        all_problems(files.drop_last()) + files.last().problems@
    }
}

/// The domains and problems of several files, in order.
pub fn merge_pddl_files(files: Vec<PddlFile>) -> (r: PddlFile)
    ensures
        r.domains@ == all_domains(files@),
        r.problems@ == all_problems(files@),
{
    let ghost fs = files@;
    let mut domains: Vec<PddlDomain> = Vec::new();
    let mut problems: Vec<PddlProblem> = Vec::new();
    let mut rest = files;
    let mut k: usize = 0;
    let n = rest.len();
    while rest.len() > 0
        invariant
            n == fs.len(),
            k + rest@.len() == n,
            rest@ == fs.subrange(k as int, n as int),
            domains@ == all_domains(fs.take(k as int)),
            problems@ == all_problems(fs.take(k as int)),
        decreases rest@.len(),
    {
        let f = rest.remove(0);
        let PddlFile { domains: mut fd, problems: mut fp } = f;
        proof {
            assert(fs.take(k + 1).drop_last() =~= fs.take(k as int));
            assert(fs.take(k + 1).last() == fs[k as int]);
        }
        domains.append(&mut fd);
        problems.append(&mut fp);
        k = k + 1;
        proof {
            assert(rest@ =~= fs.subrange(k as int, n as int));
        }
    }
    proof {
        assert(fs.take(n as int) =~= fs);
    }
    PddlFile { domains, problems }
}

/// The outcome of choosing from the merged definitions of two texts: none
/// of either is an error, several of either without a name is an error;
/// a single one is taken whatever the name, otherwise the first of the
/// given name.
pub open spec fn merged_choice(ds: Seq<Seq<char>>, ps: Seq<Seq<char>>, dn: Option<Seq<char>>, pn: Option<Seq<char>>) -> Result<(int, int), Seq<char>> {
    if ds.len() == 0 {
        Err(none_found("domain"@))
    } else if ps.len() == 0 {
        Err(none_found("problem"@))
    } else if ds.len() > 1 && dn is None {
        Err(several_found("domain"@, ds.len(), "--domain is required"@, ds))
    } else if ps.len() > 1 && pn is None {
        Err(several_found("problem"@, ps.len(), "--problem is required"@, ps))
    } else {
        let i = if ds.len() == 1 { Some(0int) } else { first_index(ds, dn->0) };
        match i {
            None => Err(not_found("domain"@, dn->0, ds)),
            Some(i) => {
                let j = if ps.len() == 1 { Some(0int) } else { first_index(ps, pn->0) };
                match j {
                    None => Err(not_found("problem"@, pn->0, ps)),
                    Some(j) => Ok((i, j)),
                }
            },
        }
    }
}

/// The outcome of choosing from merged definitions by optional names.
pub open spec fn merged_outcome(
    ds: Seq<PddlDomain>,
    ps: Seq<PddlProblem>,
    dn: Option<Seq<char>>,
    pn: Option<Seq<char>>,
    r: Result<(PddlDomain, PddlProblem), MiniplanError>,
) -> bool {
    match merged_choice(domain_names_of(ds), problem_names_of(ps), dn, pn) {
        Err(m) => r matches Err(e) && parse_error(e, m),
        Ok((i, j)) => r matches Ok((d, p)) && d == ds[i] && p == ps[j],
    }
}

/// Chooses from the merged definitions of two texts, as `merged_choice`
/// says; a failure is a `Parse` error with its message.
pub fn select_merged_named(merged: PddlFile, domain_name: Option<&str>, problem_name: Option<&str>) -> (r: Result<(PddlDomain, PddlProblem), MiniplanError>)
    ensures
        merged_outcome(merged.domains@, merged.problems@, opt_view(domain_name), opt_view(problem_name), r),
{
    proof {
        reveal_strlit("domain");
        reveal_strlit("problem");
        reveal_strlit("--domain is required");
        reveal_strlit("--problem is required");
    }
    let PddlFile { domains, problems } = merged;
    if domains.len() == 0 {
        return Err(MiniplanError::Parse(none_found_message("domain")));
    }
    if problems.len() == 0 {
        return Err(MiniplanError::Parse(none_found_message("problem")));
    }
    if domains.len() > 1 && domain_name.is_none() {
        let listed = domain_names(&domains);
        return Err(MiniplanError::Parse(several_message("domain", domains.len(), "--domain is required", listed.as_str())));
    }
    if problems.len() > 1 && problem_name.is_none() {
        let listed = problem_names(&problems);
        return Err(MiniplanError::Parse(several_message("problem", problems.len(), "--problem is required", listed.as_str())));
    }
    let dnames = domain_name_list(&domains);
    let i = if domains.len() == 1 {
        0
    } else {
        let wanted = domain_name.unwrap();
        match find_first(&dnames, wanted) {
            Some(i) => {
                proof {
                    lemma_first_index(dnames@.map_values(|s: String| s@), wanted@);
                }
                i
            },
            None => {
                let listed = join_names(&dnames);
                return Err(MiniplanError::Parse(not_found_message("domain", wanted, listed.as_str())));
            },
        }
    };
    let pnames = problem_name_list(&problems);
    let j = if problems.len() == 1 {
        0
    } else {
        let wanted = problem_name.unwrap();
        match find_first(&pnames, wanted) {
            Some(j) => {
                proof {
                    lemma_first_index(pnames@.map_values(|s: String| s@), wanted@);
                }
                j
            },
            None => {
                let listed = join_names(&pnames);
                return Err(MiniplanError::Parse(not_found_message("problem", wanted, listed.as_str())));
            },
        }
    };
    let mut ds = domains;
    let mut ps = problems;
    let d = ds.swap_remove(i);
    let p = ps.swap_remove(j);
    Ok((d, p))
}

/// Whether texts are read for this many inputs: one or two.
pub fn reads_inputs(count: usize) -> (r: bool)
    ensures
        r == (count == 1 || count == 2),
{
    count == 1 || count == 2
}

/// Loads a domain and a problem from the texts of one or two input files,
/// choosing by optional names: one text as `load_combined_str_named` does,
/// two texts merged and chosen from as `select_merged_named` does. No input,
/// or more than two, is a `Parse` error; so is every other failure.
pub fn load_texts_named(texts: &Vec<String>, domain_name: Option<&str>, problem_name: Option<&str>) -> (r: Result<(PddlDomain, PddlProblem), MiniplanError>)
    ensures
        texts@.len() == 0 ==> (r matches Err(e) && parse_error(e, "no input files provided"@)),
        texts@.len() > 2 ==> (r matches Err(e) && parse_error(e, "expected 1 or 2 input files"@)),
        texts@.len() == 1 ==> match parsed_file(texts@[0]@) {
            Ok(f) => named_outcome(f, opt_view(domain_name), opt_view(problem_name), r),
            Err(m) => r matches Err(e) && parse_error(e, m),
        },
        texts@.len() == 2 ==> match parsed_file(texts@[0]@) {
            Err(m) => r matches Err(e) && parse_error(e, m),
            Ok(f0) => match parsed_file(texts@[1]@) {
                Err(m) => r matches Err(e) && parse_error(e, m),
                Ok(f1) => merged_outcome(
                    f0.domains@ + f1.domains@,
                    f0.problems@ + f1.problems@,
                    opt_view(domain_name),
                    opt_view(problem_name),
                    r,
                ),
            },
        },
        r matches Err(e) ==> e is Parse,
{
    let n = texts.len();
    if n == 0 {
        proof {
            reveal_strlit("no input files provided");
        }
        return Err(MiniplanError::Parse(String::from_str("no input files provided")));
    }
    if n == 1 {
        return load_combined_str_named(texts[0].as_str(), domain_name, problem_name);
    }
    if n == 2 {
        let f0 = match load_pddl_file_str(texts[0].as_str()) {
            Ok(f) => f,
            Err(e) => {
                return Err(e);
            },
        };
        let f1 = match load_pddl_file_str(texts[1].as_str()) {
            Ok(f) => f,
            Err(e) => {
                return Err(e);
            },
        };
        let ghost g0 = f0;
        let ghost g1 = f1;
        let files = vec![f0, f1];
        proof {
            let fs = files@;
            assert(fs.len() == 2 && fs[0] == g0 && fs[1] == g1);
            let one = fs.drop_last();
            assert(one.len() == 1 && one.last() == g0 && fs.last() == g1);
            assert(one.drop_last() =~= Seq::<PddlFile>::empty());
            assert(all_domains(one.drop_last()) =~= Seq::<PddlDomain>::empty());
            assert(all_problems(one.drop_last()) =~= Seq::<PddlProblem>::empty());
            assert(all_domains(one) =~= g0.domains@);
            assert(all_problems(one) =~= g0.problems@);
            assert(all_domains(fs) =~= g0.domains@ + g1.domains@);
            assert(all_problems(fs) =~= g0.problems@ + g1.problems@);
        }
        let merged = merge_pddl_files(files);
        return select_merged_named(merged, domain_name, problem_name);
    }
    proof {
        reveal_strlit("expected 1 or 2 input files");
    }
    Err(MiniplanError::Parse(String::from_str("expected 1 or 2 input files")))
}

} // verus!
