use vstd::prelude::*;
use crate::mission::{Mission, class_name_of, qualified_name_of};

verus! {

/// How one mission is listed in the addon's manifest.
pub struct MissionClass {
    pub class_name: String,
    pub briefing_name: String,
    pub directory: String,
}

/// The data from which the addon's manifest is rendered.
pub struct Addon {
    pub prefix: String,
    pub addon_name: String,
    pub missions: Vec<MissionClass>,
}

/// `[{prefix}] {class_name}`.
pub open spec fn briefing_name_of(prefix: Seq<char>, class_name: Seq<char>) -> Seq<char> {
    seq!['['] + prefix + seq![']', ' '] + class_name
}

/// `{prefix}\{addon_name}\missions\{directory}`.
pub open spec fn directory_of(prefix: Seq<char>, addon_name: Seq<char>, dir: Seq<char>) -> Seq<char> {
    prefix + seq!['\\'] + addon_name + seq!['\\', 'm', 'i', 's', 's', 'i', 'o', 'n', 's', '\\'] + dir
}

/// The manifest entry of mission `m` in addon `addon_name`.
pub open spec fn mission_class_of(
    prefix: Seq<char>,
    addon_name: Seq<char>,
    m: Mission,
    c: MissionClass,
) -> bool {
    &&& c.class_name@ == class_name_of(m.prefix@, m.map_name@, m.mission_name@)
    &&& c.briefing_name@ == briefing_name_of(prefix, c.class_name@)
    &&& c.directory@ == directory_of(
        prefix,
        addon_name,
        qualified_name_of(m.prefix@, m.map_name@, m.mission_name@),
    )
}

fn mission_class(prefix: &String, addon_name: &String, m: &Mission) -> (r: MissionClass)
    ensures
        mission_class_of(prefix@, addon_name@, *m, r),
{
    let class_name = m.class_name();
    let mut briefing_name = String::from_str("[");
    briefing_name.append(prefix.as_str());
    briefing_name.append("] ");
    briefing_name.append(class_name.as_str());
    let mut directory = prefix.clone();
    directory.append("\\");
    directory.append(addon_name.as_str());
    directory.append("\\missions\\");
    directory.append(m.mission_name().as_str());
    proof {
        reveal_strlit("[");
        reveal_strlit("] ");
        reveal_strlit("\\");
        reveal_strlit("\\missions\\");
        assert(briefing_name@ =~= briefing_name_of(prefix@, class_name@));
        assert(directory@ =~= directory_of(
            prefix@,
            addon_name@,
            qualified_name_of(m.prefix@, m.map_name@, m.mission_name@),
        ));
    }
    MissionClass { class_name, briefing_name, directory }
}

impl Addon {
    /// The manifest data of addon `addon_name`: one entry per mission, in order.
    pub fn from_parts(prefix: String, addon_name: String, missions: &Vec<Mission>) -> (r: Self)
        ensures
            r.prefix == prefix,
            r.addon_name == addon_name,
            r.missions.len() == missions.len(),
            forall|k: int|
                0 <= k < missions.len() ==> mission_class_of(
                    prefix@,
                    addon_name@,
                    missions@[k],
                    #[trigger] r.missions@[k],
                ),
    {
        let mut out: Vec<MissionClass> = Vec::new();
        let mut i: usize = 0;
        while i < missions.len()
            invariant
                i <= missions.len(),
                out.len() == i,
                forall|k: int|
                    0 <= k < i ==> mission_class_of(
                        prefix@,
                        addon_name@,
                        missions@[k],
                        #[trigger] out@[k],
                    ),
            decreases missions.len() - i,
        {
            out.push(mission_class(&prefix, &addon_name, &missions[i]));
            i += 1;
        }
        Addon { prefix, addon_name, missions: out }
    }
}

} // verus!
