//! The project name that seeds identifier generation.
use vstd::prelude::*;

verus! {

/// The string under `key` in table `table` of a TOML document, if the text
/// parses as a document and holds one there.
pub uninterp spec fn toml_string(content: Seq<char>, table: Seq<char>, key: Seq<char>) -> Option<Seq<char>>;

/// `toml::Table` parsing of `content`, then `get(table)`, `get(key)` and
/// `as_str`: the result, named `toml_string`, depends on the text, the table
/// and the key alone.
#[verifier::external_body]
pub(crate) fn toml_string_at(content: &str, table: &str, key: &str) -> (r: Option<String>)
    ensures
        match r {
            Some(s) => toml_string(content@, table@, key@) == Some(s@),
            None => toml_string(content@, table@, key@) is None,
        },
{
    match content.parse::<toml::Table>() {
        Ok(doc) => doc.get(table).and_then(|t| t.get(key)).and_then(|n| n.as_str()).map(|s| s.to_string()),
        Err(_) => None,
    }
}

/// The name used when no manifest and no directory name is found.
pub open spec fn unknown_name() -> Seq<char> {
    seq!['u', 'n', 'k', 'n', 'o', 'w', 'n']
}

/// The project name: the package name of `Cargo.toml`, else the project name
/// of `pyproject.toml`, else the directory's name, else `unknown`.
pub open spec fn project_name_spec(cargo_name: Option<Seq<char>>, pyproject_name: Option<Seq<char>>, dir_name: Option<Seq<char>>) -> Seq<char> {
    match cargo_name {
        Some(n) => n,
        None => match pyproject_name {
            Some(n) => n,
            None => match dir_name {
                Some(n) => n,
                None => unknown_name(),
            },
        },
    }
}

/// The order of precedence of the project name: the `Cargo.toml` package
/// name whenever there is one, else the `pyproject.toml` project name, else
/// the directory's name, else `unknown`.
pub proof fn lemma_project_name_precedence(cargo: Option<Seq<char>>, pyproject: Option<Seq<char>>, dir: Option<Seq<char>>)
    ensures
        cargo matches Some(n) ==> project_name_spec(cargo, pyproject, dir) == n,
        pyproject matches Some(p) ==> cargo is None ==> project_name_spec(cargo, pyproject, dir) == p,
        dir matches Some(d) ==> cargo is None && pyproject is None ==> project_name_spec(cargo, pyproject, dir) == d,
        cargo is None && pyproject is None && dir is None ==> project_name_spec(cargo, pyproject, dir) == seq![
            'u',
            'n',
            'k',
            'n',
            'o',
            'w',
            'n',
        ],
{
}

/// The view of an optional string.
pub open spec fn opt_view(o: Option<String>) -> Option<Seq<char>> {
    match o {
        Some(s) => Some(s@),
        None => None,
    }
}

/// Picks the project name from the names found in each place.
pub fn choose_project_name(cargo_name: Option<String>, pyproject_name: Option<String>, dir_name: Option<String>) -> (r: String)
    ensures
        r@ == project_name_spec(opt_view(cargo_name), opt_view(pyproject_name), opt_view(dir_name)),
        cargo_name matches Some(n) ==> r@ == n@,
        pyproject_name matches Some(p) ==> cargo_name is None ==> r@ == p@,
        dir_name matches Some(d) ==> cargo_name is None && pyproject_name is None ==> r@ == d@,
        cargo_name is None && pyproject_name is None && dir_name is None ==> r@ == seq!['u', 'n', 'k', 'n', 'o', 'w', 'n'],
{
    match cargo_name {
        Some(n) => n,
        None => match pyproject_name {
            Some(n) => n,
            None => match dir_name {
                Some(n) => n,
                None => {
                    let s = "unknown";
                    proof {
                        reveal_strlit("unknown");
                    }
                    let r = s.to_owned();
                    assert(r@ =~= unknown_name());
                    r
                },
            },
        },
    }
}

/// The project name from the text of `Cargo.toml` and `pyproject.toml`, where
/// they could be read, and the name of the current directory.
pub fn project_name_from(cargo_toml: Option<&str>, pyproject_toml: Option<&str>, dir_name: Option<String>) -> (r: String)
    ensures
        r@ == project_name_spec(
            match cargo_toml {
                Some(t) => toml_string(t@, seq!['p', 'a', 'c', 'k', 'a', 'g', 'e'], seq!['n', 'a', 'm', 'e']),
                None => None,
            },
            match pyproject_toml {
                Some(t) => toml_string(t@, seq!['p', 'r', 'o', 'j', 'e', 'c', 't'], seq!['n', 'a', 'm', 'e']),
                None => None,
            },
            opt_view(dir_name),
        ),
        cargo_toml matches Some(t) ==> (toml_string(t@, seq!['p', 'a', 'c', 'k', 'a', 'g', 'e'], seq!['n', 'a', 'm', 'e'])
            matches Some(n) ==> r@ == n),
{
    proof {
        reveal_strlit("package");
        reveal_strlit("project");
        reveal_strlit("name");
    }
    let cargo_name = match cargo_toml {
        Some(t) => toml_string_at(t, "package", "name"),
        None => None,
    };
    let pyproject_name = match pyproject_toml {
        Some(t) => toml_string_at(t, "project", "name"),
        None => None,
    };
    assert("package"@ =~= seq!['p', 'a', 'c', 'k', 'a', 'g', 'e']);
    assert("project"@ =~= seq!['p', 'r', 'o', 'j', 'e', 'c', 't']);
    assert("name"@ =~= seq!['n', 'a', 'm', 'e']);
    choose_project_name(cargo_name, pyproject_name, dir_name)
}

} // verus!
