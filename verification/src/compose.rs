//! Compose files, as far as profiles matter.
use crate::names;
use crate::names::NameMap;
use crate::text;
use crate::text::copy_texts;
use vstd::prelude::*;

verus! {

/// A service of a compose file.
#[derive(Debug)]
pub struct ComposeService {
    /// The profiles that it declares.
    pub profiles: Vec<String>,
}

/// A compose file.
#[derive(Debug)]
pub struct ComposeFile {
    pub services: NameMap<ComposeService>,
}

/// The profiles that each service declares.
pub open spec fn declared_by(
    services: Map<Seq<char>, ComposeService>,
) -> Map<Seq<char>, Seq<Seq<char>>> {
    services.map_values(|s: ComposeService| text::texts(s.profiles@))
}

impl ComposeFile {
    /// The profiles that each service declares; an empty list where it declares none.
    pub fn profiles(&self) -> (r: NameMap<Vec<String>>)
        requires
            self.services.wf(),
        ensures
            r.wf(),
            names::lists_of(r@) == declared_by(self.services@),
    {
        let ghost keys = self.services.key_list();
        let mut r: NameMap<Vec<String>> = NameMap::new();
        let mut i: usize = 0;
        while i < self.services.len()
            invariant
                self.services.wf(),
                r.wf(),
                keys == self.services.key_list(),
                i <= keys.len(),
                forall|s: Seq<char>| #[trigger]
                    r@.contains_key(s) <==> keys.take(i as int).contains(s),
                forall|s: Seq<char>|
                    r@.contains_key(s) ==> #[trigger] names::lists_of(r@)[s] == declared_by(
                        self.services@,
                    )[s],
            decreases keys.len() - i,
        {
            let name = self.services.key_at(i);
            let list = copy_texts(self.services.value_at(i).profiles.as_slice());
            let ghost before = r@;
            let ghost stated = text::texts(list@);
            proof {
                names::lemma_take_contains(keys, i as int);
            }
            r.insert(name.clone(), list);
            proof {
                assert(names::lists_of(r@) =~= names::lists_of(before).insert(name@, stated));
                assert forall|s: Seq<char>| r@.contains_key(s) implies #[trigger] names::lists_of(
                    r@,
                )[s] == declared_by(self.services@)[s] by {
                    if s != name@ {
                        assert(names::lists_of(before)[s] == declared_by(self.services@)[s]);
                    }
                }
            }
            i += 1;
        }
        proof {
            self.services.lemma_keys();
            assert(keys.take(i as int) =~= keys);
            assert(names::lists_of(r@) =~= declared_by(self.services@));
        }
        r
    }
}

/// The profiles of a service are those that it declares, in their order; services without any are
/// known as well, with none.
pub proof fn law_profiles_are_those_declared(
    services: Map<Seq<char>, ComposeService>,
    s: Seq<char>,
    i: int,
)
    ensures
        declared_by(services).contains_key(s) <==> services.contains_key(s),
        services.contains_key(s) ==> declared_by(services)[s].len() == services[s].profiles@.len(),
        services.contains_key(s) && 0 <= i < services[s].profiles@.len() ==> declared_by(
            services,
        )[s][i] == services[s].profiles@[i]@,
{
}

}
