use vstd::prelude::*;

verus! {

/// Why a trie could not be restored or a format named.
#[derive(Clone, Copy, Debug, PartialEq, Eq, Structural)]
pub enum TrieError {
    /// The format name is none of `json`, `yaml` and `binary`.
    UnknownFormat,
    /// The tree holds an edge without a character, or a node below the root
    /// that neither ends a key nor leads to one.
    Malformed,
    /// The stored key count differs from the keys the tree holds.
    CountMismatch,
}

/// The three encodings a whole trie can be stored in.
#[derive(Clone, Copy, Debug, PartialEq, Eq, Structural)]
pub enum Format {
    Json,
    Yaml,
    Binary,
}

/// Relies on `regex::Regex::new` and `Regex::is_match`: the anchored pattern
/// matches exactly the three format names (`$` matches only at the end of
/// the text outside multi-line mode).
#[verifier::external_body]
fn is_format_name(token: &str) -> (r: bool)
    ensures
        r == (token@ == "json"@ || token@ == "yaml"@ || token@ == "binary"@),
{
    match regex::Regex::new("^(json|yaml|binary)$") {
        Ok(re) => re.is_match(token),
        Err(_) => false,
    }
}

impl Format {
    /// The format that `token` names: `json`, `yaml` or `binary`, exactly;
    /// anything else is `UnknownFormat`.
    pub fn parse(token: &str) -> (r: Result<Format, TrieError>)
        ensures
            r == (if token@ == "json"@ {
                Ok(Format::Json)
            } else if token@ == "yaml"@ {
                Ok(Format::Yaml)
            } else if token@ == "binary"@ {
                Ok(Format::Binary)
            } else {
                Err(TrieError::UnknownFormat)
            }),
    {
        proof {
            reveal_strlit("json");
            reveal_strlit("yaml");
            reveal_strlit("binary");
        }
        if !is_format_name(token) {
            return Err(TrieError::UnknownFormat);
        }
        let cs = crate::trie::chars_of(token);
        if cs.len() == 6 {
            Ok(Format::Binary)
        } else if cs[0] == 'j' {
            Ok(Format::Json)
        } else {
            Ok(Format::Yaml)
        }
    }
}

} // verus!
