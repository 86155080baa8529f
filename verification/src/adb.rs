//! The device side of the browser: a connected device's identity and
//! working directory, parsed from the device bridge's line-oriented output.
//!
//! Running the bridge executable and collecting its output happen outside
//! this crate; everything here is the parsing and bookkeeping applied to
//! that output.

use crate::text::{first_index_from, last_index_of, lemma_first_index_bounds, lemma_first_index_is,
    lemma_last_index_is, lemma_last_index_none, lemma_split_by_not_empty, split_by};
use vstd::prelude::*;

verus! {

/// One connected device: its bridge name, whether the bridge reports it as
/// authorized, and the directory the browser is currently showing on it.
#[derive(Clone)]
pub struct Device {
    pub name: String,
    pub authorized: bool,
    pub working_directory: String,
}

/// Mathematical model of a device: the same fields over character
/// sequences.
pub ghost struct DeviceModel {
    pub name: Seq<char>,
    pub authorized: bool,
    pub working_directory: Seq<char>,
}

impl View for Device {
    type V = DeviceModel;

    open spec fn view(&self) -> DeviceModel {
        DeviceModel {
            name: self.name@,
            authorized: self.authorized,
            working_directory: self.working_directory@,
        }
    }
}

/// The device a line of `devices` output describes: the name and state
/// separated by a single tab, with the working directory starting at the
/// filesystem root.  A line with any other number of fields describes none.
pub open spec fn device_of_line(line: Seq<char>) -> Option<DeviceModel> {
    let pieces = split_by(line, '\t');
    if pieces.len() == 2 {
        Some(
            DeviceModel {
                name: pieces[0],
                authorized: pieces[1] == "device"@,
                working_directory: "/"@,
            },
        )
    } else {
        None
    }
}

/// The devices described by a sequence of output lines, in order.
pub open spec fn devices_of_lines(lines: Seq<Seq<char>>) -> Seq<DeviceModel>
    decreases lines.len(),
{
    if lines.len() == 0 {
        Seq::empty()
    } else {
        match device_of_line(lines[0]) {
            Some(m) => seq![m] + devices_of_lines(lines.drop_first()),
            None => devices_of_lines(lines.drop_first()),
        }
    }
}

/// The models of a sequence of devices.
pub open spec fn device_models(devices: Seq<Device>) -> Seq<DeviceModel> {
    devices.map_values(|d: Device| d@)
}

impl Device {
    /// Parses one line of the bridge's `devices` output, accepting exactly
    /// the lines with a single tab: name, a tab, then the device state.
    pub fn new(adb_output: &str) -> (device: Option<Device>)
        ensures
            device is Some <==> device_of_line(adb_output@) is Some,
            device matches Some(d) ==> d@ == device_of_line(adb_output@).unwrap(),
    {
        let n = adb_output.unicode_len();
        let mut first_tab: usize = n;
        let mut second_tab: usize = n;
        let mut i: usize = 0;
        while i < n
            invariant
                i <= n,
                n == adb_output@.len(),
                first_tab <= n,
                second_tab <= n,
                first_tab == n ==> second_tab == n && (forall|k: int|
                    0 <= k < i ==> adb_output@[k] != '\t'),
                first_tab < n ==> first_tab < i && adb_output@[first_tab as int] == '\t' && (
                forall|k: int| 0 <= k < first_tab ==> adb_output@[k] != '\t'),
                first_tab < n && second_tab == n ==> (forall|k: int|
                    first_tab < k < i ==> adb_output@[k] != '\t'),
                second_tab < n ==> first_tab < second_tab < i && adb_output@[second_tab as int]
                    == '\t',
            decreases n - i,
        {
            if adb_output.get_char(i) == '\t' {
                if first_tab == n {
                    first_tab = i;
                } else if second_tab == n {
                    second_tab = i;
                }
            }
            i += 1;
        }
        let ghost s = adb_output@;
        if first_tab == n {
            proof {
                lemma_first_index_is(s, '\t', 0, n as int);
                assert(split_by(s, '\t').len() == 1);
            }
            return None;
        }
        let ghost p = first_tab as int;
        let ghost rest = s.subrange(p + 1, n as int);
        proof {
            lemma_first_index_is(s, '\t', 0, p);
            assert(split_by(s, '\t') == seq![s.subrange(0, p)] + split_by(rest, '\t'));
        }
        if second_tab < n {
            proof {
                assert(rest[second_tab - first_tab - 1] == '\t');
                lemma_first_index_bounds(rest, '\t', 0);
                assert(first_index_from(rest, '\t', 0) < rest.len());
                lemma_split_by_not_empty(
                    rest.subrange(
                        first_index_from(rest, '\t', 0) + 1,
                        rest.len() as int,
                    ),
                    '\t',
                );
                assert(split_by(rest, '\t').len() >= 2);
                assert(split_by(s, '\t').len() >= 3);
            }
            return None;
        }
        proof {
            assert(forall|k: int| 0 <= k < rest.len() ==> rest[k] != '\t');
            lemma_first_index_is(rest, '\t', 0, rest.len() as int);
            assert(split_by(rest, '\t') == seq![rest]);
            assert(split_by(s, '\t') =~= seq![s.subrange(0, p), rest]);
        }
        let name = String::from_str(adb_output.substring_char(0, first_tab));
        let state = String::from_str(adb_output.substring_char(first_tab + 1, n));
        let authorized = state == String::from_str("device");
        Some(Device { name, authorized, working_directory: String::from_str("/") })
    }

    /// Appends `path` to the working directory, exactly as given.
    pub fn change_directory_rel(&mut self, path: &str)
        ensures
            final(self).working_directory@ == old(self).working_directory@ + path@,
            final(self).name == old(self).name,
            final(self).authorized == old(self).authorized,
    {
        self.working_directory.append(path);
    }

    /// Drops the last `/`-separated component of the working directory:
    /// the directory is cut at its last slash, or emptied if it has none.
    pub fn level_up(&mut self)
        ensures
            final(self).working_directory@ == (if last_index_of(
                old(self).working_directory@,
                '/',
            ) >= 0 {
                old(self).working_directory@.subrange(
                    0,
                    last_index_of(old(self).working_directory@, '/'),
                )
            } else {
                Seq::<char>::empty()
            }),
            final(self).name == old(self).name,
            final(self).authorized == old(self).authorized,
    {
        let n = self.working_directory.as_str().unicode_len();
        let mut last: usize = n;
        let mut i: usize = 0;
        while i < n
            invariant
                i <= n,
                n == self.working_directory@.len(),
                self == old(self),
                last <= n,
                last == n ==> forall|k: int| 0 <= k < i ==> self.working_directory@[k] != '/',
                last < n ==> last < i && self.working_directory@[last as int] == '/' && (forall|
                    k: int,
                |
                    last < k < i ==> self.working_directory@[k] != '/'),
            decreases n - i,
        {
            if self.working_directory.as_str().get_char(i) == '/' {
                last = i;
            }
            i += 1;
        }
        if last < n {
            proof {
                lemma_last_index_is(self.working_directory@, '/', last as int);
            }
            let cut = String::from_str(self.working_directory.as_str().substring_char(0, last));
            self.working_directory = cut;
        } else {
            proof {
                lemma_last_index_none(self.working_directory@, '/');
            }
            self.working_directory = String::new();
        }
    }

    /// A listed path names a directory exactly when it ends in a slash,
    /// which is how the bridge's listing marks directories.
    pub fn is_directory(&self, path: String) -> (r: bool)
        ensures
            r == (path@.len() > 0 && path@.last() == '/'),
    {
        let n = path.as_str().unicode_len();
        if n == 0 {
            false
        } else {
            path.as_str().get_char(n - 1) == '/'
        }
    }

    /// The directory the browser currently shows on this device.
    pub fn get_working_directory(&self) -> (r: &str)
        ensures
            r@ == self.working_directory@,
    {
        self.working_directory.as_str()
    }
}

/// The set of devices the bridge reports, parsed from its output.
pub struct Adb {
    pub devices: Vec<Device>,
}

impl Adb {
    /// Starts with no devices; they are read from bridge output later.
    pub fn new() -> (adb: Adb)
        ensures
            adb.devices@.len() == 0,
    {
        Adb { devices: Vec::new() }
    }

    /// Reads the bridge's `devices` output: its first line is a header,
    /// and every further line that parses as a device is appended.
    pub fn populate_devices(&mut self, output: &str)
        ensures
            device_models(final(self).devices@) == device_models(old(self).devices@)
                + devices_of_lines(split_by(output@, '\n').skip(1)),
    {
        let lines = crate::text::split_lines(output);
        let ghost all = lines@.map_values(|l: String| l@);
        let ghost base = device_models(self.devices@);
        let mut i: usize = 1;
        proof {
            lemma_split_by_not_empty(output@, '\n');
            assert(all.subrange(1, all.len() as int) =~= all.skip(1));
        }
        while i < lines.len()
            invariant
                1 <= i <= lines@.len(),
                all == lines@.map_values(|l: String| l@),
                all == split_by(output@, '\n'),
                base + devices_of_lines(all.skip(1)) =~= device_models(self.devices@)
                    + devices_of_lines(all.subrange(i as int, all.len() as int)),
            decreases lines@.len() - i,
        {
            let ghost suffix = all.subrange(i as int, all.len() as int);
            proof {
                assert(suffix.drop_first() =~= all.subrange(i as int + 1, all.len() as int));
                assert(suffix[0] == lines@[i as int]@);
            }
            let parsed = Device::new(lines[i].as_str());
            match parsed {
                Some(d) => {
                    proof {
                        assert(device_models(self.devices@.push(d)) =~= device_models(
                            self.devices@,
                        ).push(d@));
                        assert(device_models(self.devices@).push(d@) + devices_of_lines(
                            suffix.drop_first(),
                        ) =~= device_models(self.devices@) + devices_of_lines(suffix));
                    }
                    self.devices.push(d);
                },
                None => {},
            }
            i += 1;
        }
        proof {
            assert(devices_of_lines(all.subrange(all.len() as int, all.len() as int))
                =~= Seq::<DeviceModel>::empty());
            assert(device_models(self.devices@) + Seq::<DeviceModel>::empty() =~= device_models(
                self.devices@,
            ));
        }
    }
}

} // verus!
