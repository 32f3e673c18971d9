//! Hardware artifacts of a node, as they are listed and printed.
use crate::json::{
    count_at, entry_at, item_pointer, item_pointer_text, len_at, text_at, JsonEntry,
};
use crate::text::{decimal_text, digits_of, same_text};
use serde_json::Value;
use vstd::prelude::*;
use vstd::string::*;

verus! {

/// The kinds of artifact that an inventory lists.
#[derive(Clone, Copy, Debug, PartialEq, Eq, Structural)]
pub enum ArtifactType {
    Memory,
    Processor,
    NodeAccel,
    NodeHsnNic,
    Drive,
    CabinetPDU,
    CabinetPDUPowerConnector,
    CMMRectifier,
    NodeAccelRiser,
    NodeEnclosurePowerSupplie,
    NodeBMC,
    RouterBMC,
}

/// The name under which an inventory lists a kind of artifact.
pub open spec fn name_of(kind: ArtifactType) -> Seq<char> {
    match kind {
        ArtifactType::Memory => "Memory"@,
        ArtifactType::Processor => "Processor"@,
        ArtifactType::NodeAccel => "NodeAccel"@,
        ArtifactType::NodeHsnNic => "NodeHsnNic"@,
        ArtifactType::Drive => "Drive"@,
        ArtifactType::CabinetPDU => "CabinetPDU"@,
        ArtifactType::CabinetPDUPowerConnector => "CabinetPDUPowerConnector"@,
        ArtifactType::CMMRectifier => "CMMRectifier"@,
        ArtifactType::NodeAccelRiser => "NodeAccelRiser"@,
        ArtifactType::NodeEnclosurePowerSupplie => "NodeEnclosurePowerSupplie"@,
        ArtifactType::NodeBMC => "NodeBMC"@,
        ArtifactType::RouterBMC => "RouterBMC"@,
    }
}

/// All kinds, in the order of their declaration.
pub open spec fn all_kinds() -> Seq<ArtifactType> {
    seq![
        ArtifactType::Memory,
        ArtifactType::Processor,
        ArtifactType::NodeAccel,
        ArtifactType::NodeHsnNic,
        ArtifactType::Drive,
        ArtifactType::CabinetPDU,
        ArtifactType::CabinetPDUPowerConnector,
        ArtifactType::CMMRectifier,
        ArtifactType::NodeAccelRiser,
        ArtifactType::NodeEnclosurePowerSupplie,
        ArtifactType::NodeBMC,
        ArtifactType::RouterBMC,
    ]
}

/// No kind is missing.
pub proof fn lemma_all_kinds()
    ensures
        forall|kind: ArtifactType| all_kinds().contains(kind),
{
    let all = all_kinds();
    assert forall|kind: ArtifactType| all.contains(kind) by {
        match kind {
            ArtifactType::Memory => assert(all[0] == kind),
            ArtifactType::Processor => assert(all[1] == kind),
            ArtifactType::NodeAccel => assert(all[2] == kind),
            ArtifactType::NodeHsnNic => assert(all[3] == kind),
            ArtifactType::Drive => assert(all[4] == kind),
            ArtifactType::CabinetPDU => assert(all[5] == kind),
            ArtifactType::CabinetPDUPowerConnector => assert(all[6] == kind),
            ArtifactType::CMMRectifier => assert(all[7] == kind),
            ArtifactType::NodeAccelRiser => assert(all[8] == kind),
            ArtifactType::NodeEnclosurePowerSupplie => assert(all[9] == kind),
            ArtifactType::NodeBMC => assert(all[10] == kind),
            ArtifactType::RouterBMC => assert(all[11] == kind),
        }
    }
}

impl ArtifactType {
    /// The name of this kind.
    pub fn name(&self) -> (r: &'static str)
        ensures
            r@ == name_of(*self),
    {
        match self {
            ArtifactType::Memory => "Memory",
            ArtifactType::Processor => "Processor",
            ArtifactType::NodeAccel => "NodeAccel",
            ArtifactType::NodeHsnNic => "NodeHsnNic",
            ArtifactType::Drive => "Drive",
            ArtifactType::CabinetPDU => "CabinetPDU",
            ArtifactType::CabinetPDUPowerConnector => "CabinetPDUPowerConnector",
            ArtifactType::CMMRectifier => "CMMRectifier",
            ArtifactType::NodeAccelRiser => "NodeAccelRiser",
            ArtifactType::NodeEnclosurePowerSupplie => "NodeEnclosurePowerSupplie",
            ArtifactType::NodeBMC => "NodeBMC",
            ArtifactType::RouterBMC => "RouterBMC",
        }
    }

    /// All kinds, in the order of their declaration.
    pub fn all() -> (r: Vec<ArtifactType>)
        ensures
            r@ == all_kinds(),
    {
        let mut out: Vec<ArtifactType> = Vec::new();
        out.push(ArtifactType::Memory);
        out.push(ArtifactType::Processor);
        out.push(ArtifactType::NodeAccel);
        out.push(ArtifactType::NodeHsnNic);
        out.push(ArtifactType::Drive);
        out.push(ArtifactType::CabinetPDU);
        out.push(ArtifactType::CabinetPDUPowerConnector);
        out.push(ArtifactType::CMMRectifier);
        out.push(ArtifactType::NodeAccelRiser);
        out.push(ArtifactType::NodeEnclosurePowerSupplie);
        out.push(ArtifactType::NodeBMC);
        out.push(ArtifactType::RouterBMC);
        assert(out@ =~= all_kinds());
        out
    }

    /// The kind of the given name; nothing where no kind has that name.
    pub fn from_name(name: &str) -> (r: Option<ArtifactType>)
        ensures
            r == kind_named(name@),
            match r {
                Some(kind) => name_of(kind) == name@,
                None => forall|kind: ArtifactType| name_of(kind) != name@,
            },
    {
        if same_text(name, "Memory") {
            Some(ArtifactType::Memory)
        } else if same_text(name, "Processor") {
            Some(ArtifactType::Processor)
        } else if same_text(name, "NodeAccel") {
            Some(ArtifactType::NodeAccel)
        } else if same_text(name, "NodeHsnNic") {
            Some(ArtifactType::NodeHsnNic)
        } else if same_text(name, "Drive") {
            Some(ArtifactType::Drive)
        } else if same_text(name, "CabinetPDU") {
            Some(ArtifactType::CabinetPDU)
        } else if same_text(name, "CabinetPDUPowerConnector") {
            Some(ArtifactType::CabinetPDUPowerConnector)
        } else if same_text(name, "CMMRectifier") {
            Some(ArtifactType::CMMRectifier)
        } else if same_text(name, "NodeAccelRiser") {
            Some(ArtifactType::NodeAccelRiser)
        } else if same_text(name, "NodeEnclosurePowerSupplie") {
            Some(ArtifactType::NodeEnclosurePowerSupplie)
        } else if same_text(name, "NodeBMC") {
            Some(ArtifactType::NodeBMC)
        } else if same_text(name, "RouterBMC") {
            Some(ArtifactType::RouterBMC)
        } else {
            None
        }
    }
}

/// The kind of the given name; nothing where no kind has that name.
pub open spec fn kind_named(name: Seq<char>) -> Option<ArtifactType> {
    if name == "Memory"@ {
        Some(ArtifactType::Memory)
    } else if name == "Processor"@ {
        Some(ArtifactType::Processor)
    } else if name == "NodeAccel"@ {
        Some(ArtifactType::NodeAccel)
    } else if name == "NodeHsnNic"@ {
        Some(ArtifactType::NodeHsnNic)
    } else if name == "Drive"@ {
        Some(ArtifactType::Drive)
    } else if name == "CabinetPDU"@ {
        Some(ArtifactType::CabinetPDU)
    } else if name == "CabinetPDUPowerConnector"@ {
        Some(ArtifactType::CabinetPDUPowerConnector)
    } else if name == "CMMRectifier"@ {
        Some(ArtifactType::CMMRectifier)
    } else if name == "NodeAccelRiser"@ {
        Some(ArtifactType::NodeAccelRiser)
    } else if name == "NodeEnclosurePowerSupplie"@ {
        Some(ArtifactType::NodeEnclosurePowerSupplie)
    } else if name == "NodeBMC"@ {
        Some(ArtifactType::NodeBMC)
    } else if name == "RouterBMC"@ {
        Some(ArtifactType::RouterBMC)
    } else {
        None
    }
}

/// One artifact of a node.
#[derive(Clone, Debug)]
pub struct ArtifactSummary {
    pub xname: String,
    pub kind: ArtifactType,
    pub info: String,
}

/// The artifacts of a node.
#[derive(Clone, Debug)]
pub struct NodeSummary {
    pub xname: String,
    pub kind: String,
    pub processors: Vec<ArtifactSummary>,
    pub memory: Vec<ArtifactSummary>,
    pub node_accels: Vec<ArtifactSummary>,
    pub node_hsn_nics: Vec<ArtifactSummary>,
}

/// What an artifact holds.
pub struct Artifact {
    pub xname: Seq<char>,
    pub kind: ArtifactType,
    pub info: Seq<char>,
}

impl View for ArtifactSummary {
    type V = Artifact;

    open spec fn view(&self) -> Artifact {
        Artifact { xname: self.xname@, kind: self.kind, info: self.info@ }
    }
}

/// What a vector of artifacts holds.
pub open spec fn artifact_views(artifacts: Seq<ArtifactSummary>) -> Seq<Artifact> {
    Seq::new(artifacts.len(), |i: int| artifacts[i]@)
}

/// What the artifacts of a node hold.
pub struct Node {
    pub xname: Seq<char>,
    pub kind: Seq<char>,
    pub processors: Seq<Artifact>,
    pub memory: Seq<Artifact>,
    pub node_accels: Seq<Artifact>,
    pub node_hsn_nics: Seq<Artifact>,
}

impl View for NodeSummary {
    type V = Node;

    open spec fn view(&self) -> Node {
        Node {
            xname: self.xname@,
            kind: self.kind@,
            processors: artifact_views(self.processors@),
            memory: artifact_views(self.memory@),
            node_accels: artifact_views(self.node_accels@),
            node_hsn_nics: artifact_views(self.node_hsn_nics@),
        }
    }
}

/// The artifact that the item at `index` of a list describes: its
/// identifier, its kind, and as its description the text that it holds in
/// `field`, or, where `capacity` is set, the number that it holds there,
/// in mebibytes. Nothing where the item lacks one of them or names no
/// kind.
pub open spec fn artifact_of(
    document: Value,
    list: Seq<char>,
    index: nat,
    field: Seq<char>,
    capacity: bool,
) -> Option<Artifact> {
    match (
        entry_at(document, item_pointer(list, index, "/ID"@)),
        entry_at(document, item_pointer(list, index, "/Type"@)),
        entry_at(document, item_pointer(list, index, field)),
    ) {
        (Some(JsonEntry::Text(id)), Some(JsonEntry::Text(kind)), Some(info)) => match (
            kind_named(kind),
            info,
        ) {
            (Some(kind), JsonEntry::Text(text)) => if capacity {
                None
            } else {
                Some(Artifact { xname: id, kind, info: text })
            },
            (Some(kind), JsonEntry::Count(number)) => if capacity {
                Some(Artifact { xname: id, kind, info: digits_of(number as nat) + " MiB"@ })
            } else {
                None
            },
            _ => None,
        },
        _ => None,
    }
}

/// The artifacts that the first `upto` items of a list describe; nothing
/// where one of them describes none.
pub open spec fn artifacts_upto(
    document: Value,
    list: Seq<char>,
    field: Seq<char>,
    capacity: bool,
    upto: nat,
) -> Option<Seq<Artifact>>
    decreases upto,
{
    if upto == 0 {
        Some(Seq::empty())
    } else {
        match (
            artifacts_upto(document, list, field, capacity, (upto - 1) as nat),
            artifact_of(document, list, (upto - 1) as nat, field, capacity),
        ) {
            (Some(before), Some(artifact)) => Some(before.push(artifact)),
            _ => None,
        }
    }
}

/// The artifacts that the list at `list` describes; none where the
/// document holds no list there.
pub open spec fn artifacts_of(document: Value, list: Seq<char>, field: Seq<char>, capacity: bool) -> Option<
    Seq<Artifact>,
> {
    match entry_at(document, list) {
        Some(JsonEntry::List(len)) => artifacts_upto(document, list, field, capacity, len),
        _ => Some(Seq::empty()),
    }
}

/// The artifacts of a node, from its entry in an inventory document.
pub open spec fn summary_of(document: Value) -> Option<Node> {
    match (
        entry_at(document, "/ID"@),
        entry_at(document, "/Type"@),
        artifacts_of(document, "/Processors"@, "/PopulatedFRU/ProcessorFRUInfo/Model"@, false),
        artifacts_of(document, "/Memory"@, "/PopulatedFRU/MemoryFRUInfo/CapacityMiB"@, true),
        artifacts_of(document, "/NodeAccels"@, "/PopulatedFRU/NodeAccelFRUInfo/Model"@, false),
        artifacts_of(document, "/NodeHsnNics"@, "/NodeHsnNicLocationInfo/Description"@, false),
    ) {
        (
            Some(JsonEntry::Text(xname)),
            Some(JsonEntry::Text(kind)),
            Some(processors),
            Some(memory),
            Some(node_accels),
            Some(node_hsn_nics),
        ) => Some(Node { xname, kind, processors, memory, node_accels, node_hsn_nics }),
        _ => None,
    }
}

proof fn lemma_artifacts_fail(
    document: Value,
    list: Seq<char>,
    field: Seq<char>,
    capacity: bool,
    at: nat,
    upto: nat,
)
    requires
        at <= upto,
        artifacts_upto(document, list, field, capacity, at) is None,
    ensures
        artifacts_upto(document, list, field, capacity, upto) is None,
    decreases upto,
{
    if at < upto {
        lemma_artifacts_fail(document, list, field, capacity, at, (upto - 1) as nat);
    }
}

fn read_artifact(document: &Value, list: &str, index: usize, field: &str, capacity: bool) -> (r:
    Option<ArtifactSummary>)
    ensures
        match r {
            Some(artifact) => artifact_of(*document, list@, index as nat, field@, capacity) == Some(
                artifact@,
            ),
            None => artifact_of(*document, list@, index as nat, field@, capacity) is None,
        },
{
    let id_pointer: String = item_pointer_text(list, index, "/ID");
    let kind_pointer: String = item_pointer_text(list, index, "/Type");
    let info_pointer: String = item_pointer_text(list, index, field);
    let xname: String = match text_at(document, id_pointer.as_str()) {
        Some(text) => text,
        None => {
            return None;
        },
    };
    let kind_name: String = match text_at(document, kind_pointer.as_str()) {
        Some(text) => text,
        None => {
            return None;
        },
    };
    let kind: ArtifactType = match ArtifactType::from_name(kind_name.as_str()) {
        Some(kind) => kind,
        None => {
            return None;
        },
    };
    if capacity {
        match count_at(document, info_pointer.as_str()) {
            Some(number) => {
                let mut info: String = decimal_text(number);
                info.append(" MiB");
                Some(ArtifactSummary { xname, kind, info })
            },
            None => None,
        }
    } else {
        match text_at(document, info_pointer.as_str()) {
            Some(info) => Some(ArtifactSummary { xname, kind, info }),
            None => None,
        }
    }
}

fn read_artifacts(document: &Value, list: &str, field: &str, capacity: bool) -> (r: Option<
    Vec<ArtifactSummary>,
>)
    ensures
        match r {
            Some(found) => artifacts_of(*document, list@, field@, capacity) == Some(
                artifact_views(found@),
            ),
            None => artifacts_of(*document, list@, field@, capacity) is None,
        },
{
    let mut out: Vec<ArtifactSummary> = Vec::new();
    proof {
        assert(artifact_views(out@) =~= Seq::<Artifact>::empty());
    }
    let len: usize = match len_at(document, list) {
        Some(len) => len,
        None => {
            return Some(out);
        },
    };
    let mut i: usize = 0;
    while i < len
        invariant
            i <= len,
            entry_at(*document, list@) == Some(JsonEntry::List(len as nat)),
            artifacts_upto(*document, list@, field@, capacity, i as nat) == Some(
                artifact_views(out@),
            ),
        decreases len - i,
    {
        match read_artifact(document, list, i, field, capacity) {
            Some(artifact) => {
                let ghost before = artifact_views(out@);
                out.push(artifact);
                proof {
                    assert(artifact_views(out@) =~= before.push(artifact@));
                }
            },
            None => {
                proof {
                    assert(artifacts_upto(*document, list@, field@, capacity, (i + 1) as nat)
                        is None);
                    lemma_artifacts_fail(
                        *document,
                        list@,
                        field@,
                        capacity,
                        (i + 1) as nat,
                        len as nat,
                    );
                }
                return None;
            },
        }
        i = i + 1;
    }
    Some(out)
}

impl NodeSummary {
    /// The artifacts of a node, from its entry in an inventory document:
    /// its identifier and its type, and its processors, memory modules,
    /// accelerators and network interfaces, each with its identifier, its
    /// kind and a description. Gives nothing where the entry or one of
    /// the artifacts lacks one of these.
    pub fn from_csm_value(hw_artifact_value: &Value) -> (r: Option<NodeSummary>)
        ensures
            match r {
                Some(summary) => summary_of(*hw_artifact_value) == Some(summary@),
                None => summary_of(*hw_artifact_value) is None,
            },
    {
        let xname: String = match text_at(hw_artifact_value, "/ID") {
            Some(text) => text,
            None => {
                return None;
            },
        };
        let kind: String = match text_at(hw_artifact_value, "/Type") {
            Some(text) => text,
            None => {
                return None;
            },
        };
        let processors: Vec<ArtifactSummary> = match read_artifacts(
            hw_artifact_value,
            "/Processors",
            "/PopulatedFRU/ProcessorFRUInfo/Model",
            false,
        ) {
            Some(found) => found,
            None => {
                return None;
            },
        };
        let memory: Vec<ArtifactSummary> = match read_artifacts(
            hw_artifact_value,
            "/Memory",
            "/PopulatedFRU/MemoryFRUInfo/CapacityMiB",
            true,
        ) {
            Some(found) => found,
            None => {
                return None;
            },
        };
        let node_accels: Vec<ArtifactSummary> = match read_artifacts(
            hw_artifact_value,
            "/NodeAccels",
            "/PopulatedFRU/NodeAccelFRUInfo/Model",
            false,
        ) {
            Some(found) => found,
            None => {
                return None;
            },
        };
        let node_hsn_nics: Vec<ArtifactSummary> = match read_artifacts(
            hw_artifact_value,
            "/NodeHsnNics",
            "/NodeHsnNicLocationInfo/Description",
            false,
        ) {
            Some(found) => found,
            None => {
                return None;
            },
        };
        Some(NodeSummary { xname, kind, processors, memory, node_accels, node_hsn_nics })
    }
}

} // verus!
