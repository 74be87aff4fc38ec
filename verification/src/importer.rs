//! External devices from which pictures are imported: which disks to offer and how to
//! show them.

use vstd::prelude::*;

verus! {

/// What the system tells about one disk.
#[derive(Debug)]
pub struct DiskInfo {
    pub name: String,
    pub mount_point: String,
    pub total_space: u64,
    pub available_space: u64,
    pub removable: bool,
}

/// A device as it is offered for import.
#[derive(Debug)]
pub struct ExternalDevice {
    pub name: String,
    pub path: String,
    /// Capacity in bytes.
    pub total: u64,
    /// Bytes in use.
    pub used: u64,
    /// Kind of icon to show: `sd`, `camera`, `usb` or `hdd`.
    pub icon: String,
}

/// The mathematical value of an [`ExternalDevice`].
pub struct ExternalDeviceView {
    pub name: Seq<char>,
    pub path: Seq<char>,
    pub total: u64,
    pub used: u64,
    pub icon: Seq<char>,
}

impl View for ExternalDevice {
    type V = ExternalDeviceView;

    open spec fn view(&self) -> ExternalDeviceView {
        ExternalDeviceView { name: self.name@, path: self.path@, total: self.total, used: self.used, icon: self.icon@ }
    }
}

/// What `str::to_lowercase` returns for a text: its lowercase form by the rules of Unicode.
pub uninterp spec fn lowercase_of(text: Seq<char>) -> Seq<char>;

/// `str::to_lowercase` of std: the lowercase equivalent of the text as a new `String`.
pub assume_specification[ str::to_lowercase ](text: &str) -> (lower: String)
    ensures
        lower@ == lowercase_of(text@),
;

/// Whether `needle` occurs in `haystack` as a run of consecutive characters.
pub open spec fn has_substring(haystack: Seq<char>, needle: Seq<char>) -> bool {
    exists|at: int| 0 <= at <= haystack.len() - needle.len() && #[trigger] haystack.subrange(at, at + needle.len()) == needle
}

/// `str::contains` of std with a `&str` pattern: whether the pattern matches a sub-slice
/// of the text.
#[verifier::external_body]
fn text_contains(haystack: &str, needle: &str) -> (found: bool)
    ensures
        found == has_substring(haystack@, needle@),
{
    haystack.contains(needle)
}

/// The icon for a device whose name, in lowercase, is `lower`: a card reader if the name
/// speaks of `sd` or `card`; else a camera if it speaks of `camera`, `eos` or `nikon`;
/// else a stick if it speaks of `usb`; else a hard disk.
pub open spec fn icon_for(lower: Seq<char>) -> Seq<char> {
    if has_substring(lower, "sd"@) || has_substring(lower, "card"@) {
        "sd"@
    } else if has_substring(lower, "camera"@) || has_substring(lower, "eos"@) || has_substring(lower, "nikon"@) {
        "camera"@
    } else if has_substring(lower, "usb"@) {
        "usb"@
    } else {
        "hdd"@
    }
}

/// The icon for a device name that is already in lowercase.
pub fn icon_from_lowercase(name_lower: &str) -> (icon: String)
    ensures
        icon@ == icon_for(name_lower@),
{
    if text_contains(name_lower, "sd") || text_contains(name_lower, "card") {
        return String::from_str("sd");
    }
    if text_contains(name_lower, "camera") || text_contains(name_lower, "eos") || text_contains(name_lower, "nikon") {
        return String::from_str("camera");
    }
    if text_contains(name_lower, "usb") {
        return String::from_str("usb");
    }
    String::from_str("hdd")
}

/// Guesses the kind of a device from its name, whatever the case of its letters.
pub fn get_icon_from_name(name: &str) -> (icon: String)
    ensures
        icon@ == icon_for(lowercase_of(name@)),
{
    let name_lower = name.to_lowercase();
    icon_from_lowercase(name_lower.as_str())
}

/// The bytes in use on a disk: capacity less what is free, 0 where more is reported
/// free than there is.
pub open spec fn used_space(disk: DiskInfo) -> u64 {
    if disk.total_space >= disk.available_space {
        (disk.total_space - disk.available_space) as u64
    } else {
        0
    }
}

/// How a disk is offered.
pub open spec fn device_of(disk: DiskInfo) -> ExternalDeviceView {
    ExternalDeviceView {
        name: disk.name@,
        path: disk.mount_point@,
        total: disk.total_space,
        used: used_space(disk),
        icon: icon_for(lowercase_of(disk.name@)),
    }
}

/// Describes one disk as a device.
pub fn describe_disk(disk: &DiskInfo) -> (device: ExternalDevice)
    ensures
        device@ == device_of(*disk),
{
    let used = if disk.total_space >= disk.available_space {
        disk.total_space - disk.available_space
    } else {
        0
    };
    ExternalDevice {
        name: disk.name.clone(),
        path: disk.mount_point.clone(),
        total: disk.total_space,
        used,
        icon: get_icon_from_name(disk.name.as_str()),
    }
}

/// The test "is removable".
pub open spec fn removable_test() -> spec_fn(DiskInfo) -> bool {
    |disk: DiskInfo| disk.removable
}

/// The devices that a list of disks offers: the removable ones, or all.
pub open spec fn devices_of(disks: Seq<DiskInfo>, removable_only: bool) -> Seq<ExternalDeviceView> {
    if removable_only {
        disks.filter(removable_test()).map_values(|disk: DiskInfo| device_of(disk))
    } else {
        disks.map_values(|disk: DiskInfo| device_of(disk))
    }
}

/// The values of a list of devices.
pub open spec fn devices_view(devices: Seq<ExternalDevice>) -> Seq<ExternalDeviceView> {
    Seq::new(devices.len(), |i: int| devices[i]@)
}

/// The removable disks as devices, in the order of the disks. Never fails.
pub fn list_external_devices(disks: &Vec<DiskInfo>) -> (listed: Result<Vec<ExternalDevice>, String>)
    ensures
        listed matches Ok(devices) && devices_view(devices@) == devices_of(disks@, true),
{
    let ghost describe = |disk: DiskInfo| device_of(disk);
    let mut devices: Vec<ExternalDevice> = Vec::new();
    let mut i: usize = 0;
    proof {
        assert(disks@.take(0) =~= Seq::<DiskInfo>::empty());
        disks@.take(0).lemma_filter_len(removable_test());
        assert(devices_view(devices@) =~= disks@.take(0).filter(removable_test()).map_values(describe));
    }
    while i < disks.len()
        invariant
            i <= disks.len(),
            describe == |disk: DiskInfo| device_of(disk),
            devices_view(devices@) == disks@.take(i as int).filter(removable_test()).map_values(describe),
        decreases disks.len() - i,
    {
        let ghost before = devices_view(devices@);
        proof {
            assert(disks@.take(i + 1) =~= disks@.take(i as int).push(disks@[i as int]));
            disks@.take(i as int).lemma_filter_push(disks@[i as int], removable_test());
        }
        if disks[i].removable {
            devices.push(describe_disk(&disks[i]));
            proof {
                assert(devices_view(devices@) =~= before.push(device_of(disks@[i as int])));
                assert(disks@.take(i as int).filter(removable_test()).push(disks@[i as int]).map_values(describe) =~= before.push(
                    device_of(disks@[i as int]),
                ));
            }
        } else {
            proof {
                assert(devices_view(devices@) =~= before);
            }
        }
        i += 1;
    }
    proof {
        assert(disks@.take(disks.len() as int) =~= disks@);
    }
    Ok(devices)
}

/// Every disk as a device, removable or not, in the order of the disks. Never fails.
pub fn list_all_disks(disks: &Vec<DiskInfo>) -> (listed: Result<Vec<ExternalDevice>, String>)
    ensures
        listed matches Ok(devices) && devices_view(devices@) == devices_of(disks@, false),
{
    let mut devices: Vec<ExternalDevice> = Vec::new();
    let mut i: usize = 0;
    while i < disks.len()
        invariant
            i <= disks.len(),
            devices.len() == i,
            forall|d: int| 0 <= d < i ==> (#[trigger] devices[d])@ == device_of(disks[d]),
        decreases disks.len() - i,
    {
        devices.push(describe_disk(&disks[i]));
        i += 1;
    }
    proof {
        assert(devices_view(devices@) =~= devices_of(disks@, false));
    }
    Ok(devices)
}

/// What to do with one file that is to be imported.
#[derive(Debug, Clone, Copy, PartialEq, Eq, Structural)]
pub enum ImportAction {
    /// Leave it: a file of its name is already at its place.
    Skip,
    /// Copy it to its place.
    Copy,
    /// Copy it to its place, then remove it from where it was.
    CopyThenRemove,
}

/// Decides what to do with a file: nothing is ever overwritten, and a file is removed
/// from where it was only if the import cuts and the file was copied.
pub fn import_action(target_exists: bool, cut: bool) -> (action: ImportAction)
    ensures
        action == if target_exists {
            ImportAction::Skip
        } else if cut {
            ImportAction::CopyThenRemove
        } else {
            ImportAction::Copy
        },
{
    if target_exists {
        ImportAction::Skip
    } else if cut {
        ImportAction::CopyThenRemove
    } else {
        ImportAction::Copy
    }
}

} // verus!
