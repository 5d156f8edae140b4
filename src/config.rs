//! Key/value settings read from a properties text.
use vstd::prelude::*;

verus! {

/// The keys and values a properties text defines; `None` where the text
/// is malformed.
pub uninterp spec fn properties_of(text: Seq<u8>) -> Option<Map<Seq<char>, Seq<char>>>;

/// `ps` lists each key of `m` once, with its value.
pub open spec fn pairs_list(ps: Seq<(Seq<char>, Seq<char>)>, m: Map<Seq<char>, Seq<char>>) -> bool {
    &&& forall|i: int, j: int| 0 <= i < j < ps.len() ==> (#[trigger] ps[i]).0 != (#[trigger] ps[j]).0
    &&& forall|i: int| 0 <= i < ps.len() ==> m.contains_key((#[trigger] ps[i]).0) && m[ps[i].0] == ps[i].1
    &&& forall|k: Seq<char>| #[trigger] m.contains_key(k) ==> exists|i: int| 0 <= i < ps.len() && (#[trigger] ps[i]).0 == k
}

pub open spec fn pairs_view(ps: Seq<(String, String)>) -> Seq<(Seq<char>, Seq<char>)> {
    ps.map_values(|p: (String, String)| (p.0@, p.1@))
}

/// Relies on `java_properties::read`: it parses a properties text into a
/// map of keys to values, and fails on malformed text; the map's pairs
/// are handed out in whatever order it holds them.
#[verifier::external_body]
fn parse_properties(text: &[u8]) -> (r: Option<Vec<(String, String)>>)
    ensures
        r is Some <==> properties_of(text@) is Some,
        r matches Some(v) ==> pairs_list(pairs_view(v@), properties_of(text@)->0),
{
    match java_properties::read(text) {
        Ok(map) => Some(map.into_iter().collect()),
        Err(_) => None,
    }
}

#[derive(Debug)]
pub enum ConfigPropertiesError {
    MissingConfigPropertyError(MissingConfigPropertyError),
    InvalidConfigPropertyKeyError(InvalidConfigPropertyKeyError),
}

/// No property has the key asked for.
#[derive(Debug)]
pub struct MissingConfigPropertyError {
    pub property: String,
}

/// The key asked for is empty.
#[derive(Debug)]
pub struct InvalidConfigPropertyKeyError {
    pub key: String,
}

#[derive(Debug)]
pub struct Config {
    pub filename: String,
    /// Key/value pairs, each key once.
    pub properties: Vec<(String, String)>,
}

impl Config {
    /// Keys are not repeated.
    pub open spec fn wf(&self) -> bool {
        forall|i: int, j: int|
            0 <= i < j < self.properties@.len() ==> (#[trigger] self.properties@[i]).0@ != (
            #[trigger] self.properties@[j]).0@
    }

    /// A configuration for the file `filename`, with no property yet.
    pub fn new(filename: &str) -> (r: Config)
        ensures
            r.wf(),
            r.filename@ == filename@,
            r.properties@.len() == 0,
    {
        Config { filename: filename.to_owned(), properties: Vec::new() }
    }

    /// Takes the properties that `text` defines; malformed text leaves the
    /// configuration without properties.
    pub fn load_properties(&mut self, text: &[u8])
        ensures
            final(self).wf(),
            final(self).filename == old(self).filename,
            properties_of(text@) is None ==> final(self).properties@.len() == 0,
            properties_of(text@) matches Some(m) ==> pairs_list(
                pairs_view(final(self).properties@),
                m,
            ),
    {
        match parse_properties(text) {
            Some(v) => {
                proof {
                    let ps = pairs_view(v@);
                    assert forall|i: int, j: int| 0 <= i < j < v@.len() implies (
                    #[trigger] v@[i]).0@ != (#[trigger] v@[j]).0@ by {
                        assert(ps[i].0 != ps[j].0);
                    }
                }
                self.properties = v;
            },
            None => {
                self.properties = Vec::new();
            },
        }
    }

    /// The value of property `key`.
    pub fn get(&mut self, key: String) -> (r: Result<String, ConfigPropertiesError>)
        requires
            old(self).wf(),
        ensures
            *final(self) == *old(self),
            key@.len() == 0 ==> (r matches Err(
                ConfigPropertiesError::InvalidConfigPropertyKeyError(e),
            ) && e.key@ == key@),
            key@.len() > 0 ==> match r {
                Ok(v) => exists|i: int|
                    0 <= i < old(self).properties@.len() && (#[trigger] old(self).properties@[i]).0@
                        == key@ && old(self).properties@[i].1@ == v@,
                Err(ConfigPropertiesError::MissingConfigPropertyError(e)) => e.property@ == key@
                    && forall|i: int|
                    0 <= i < old(self).properties@.len() ==> (#[trigger] old(
                        self,
                    ).properties@[i]).0@ != key@,
                Err(_) => false,
            },
    {
        if key.as_str().is_empty() {
            return Err(
                ConfigPropertiesError::InvalidConfigPropertyKeyError(
                    InvalidConfigPropertyKeyError { key },
                ),
            );
        }
        let mut i: usize = 0;
        while i < self.properties.len()
            invariant
                i <= self.properties@.len(),
                key@.len() > 0,
                forall|k: int| 0 <= k < i ==> (#[trigger] self.properties@[k]).0@ != key@,
            decreases self.properties@.len() - i,
        {
            if self.properties[i].0 == key {
                return Ok(self.properties[i].1.clone());
            }
            i = i + 1;
        }
        Err(
            ConfigPropertiesError::MissingConfigPropertyError(
                MissingConfigPropertyError { property: key },
            ),
        )
    }
}

} // verus!
