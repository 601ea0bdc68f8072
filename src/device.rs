use vstd::prelude::*;

use crate::brightness::Brightness;
use crate::error::Error;

verus! {

/// The name a device goes by in its class directory.
#[derive(Debug, Clone)]
pub struct Id(String);

impl View for Id {
    type V = Seq<char>;

    closed spec fn view(&self) -> Seq<char> {
        self.0@
    }
}

impl Id {
    /// A copy of the name.
    pub fn cloned(&self) -> (r: Id)
        ensures
            r@ == self@,
    {
        Id(self.0.clone())
    }

    pub fn as_str(&self) -> (r: &str)
        ensures
            r@ == self@,
    {
        self.0.as_str()
    }
}

impl From<String> for Id {
    fn from(s: String) -> (r: Id)
        ensures
            r@ == s@,
    {
        Id(s)
    }
}

impl vstd::std_specs::convert::FromSpecImpl<String> for Id {
    open spec fn obeys_from_spec() -> bool {
        true
    }

    closed spec fn from_spec(v: String) -> Id {
        Id(v)
    }
}

impl PartialEq for Id {
    fn eq(&self, o: &Id) -> (r: bool)
        ensures
            r == (self@ == o@),
    {
        self.0 == o.0
    }
}

impl vstd::std_specs::cmp::PartialEqSpecImpl for Id {
    open spec fn obeys_eq_spec() -> bool {
        true
    }

    open spec fn eq_spec(&self, o: &Id) -> bool {
        self@ == o@
    }
}

impl Eq for Id {}

/// Whether `a` and `b` hold the same characters.
pub fn same_text(a: &str, b: &str) -> (r: bool)
    ensures
        r == (a@ == b@),
{
    let n = a.unicode_len();
    if n != b.unicode_len() {
        return false;
    }
    let mut i: usize = 0;
    while i < n
        invariant
            n == a@.len() == b@.len(),
            i <= n,
            forall|k: int| 0 <= k < i ==> a@[k] == b@[k],
        decreases n - i,
    {
        if a.get_char(i) != b.get_char(i) {
            return false;
        }
        i += 1;
    }
    assert(a@ =~= b@);
    true
}

/// The two classes of dimmable devices.
#[derive(Debug, Clone, Copy, PartialEq, Eq, Structural)]
pub enum Class {
    Backlight,
    Led,
}

/// The directory name of each class.
pub open spec fn class_dir(c: Class) -> Seq<char> {
    match c {
        Class::Backlight => "backlight"@,
        Class::Led => "leds"@,
    }
}

impl Class {
    /// The name of the class directory.
    pub fn filename(self) -> (r: &'static str)
        ensures
            r@ == class_dir(self),
    {
        match self {
            Class::Backlight => "backlight",
            Class::Led => "leds",
        }
    }

    /// The class whose directory is named `s`.
    pub fn from_filename(s: &str) -> (r: Option<Class>)
        ensures
            r matches Some(c) ==> class_dir(c) == s@,
            r is None ==> s@ != class_dir(Class::Backlight) && s@ != class_dir(Class::Led),
    {
        if same_text(s, Class::Backlight.filename()) {
            Some(Class::Backlight)
        } else if same_text(s, Class::Led.filename()) {
            Some(Class::Led)
        } else {
            None
        }
    }

    /// The name the class is shown under.
    pub fn name(self) -> (r: &'static str)
        ensures
            r@ == match self {
                Class::Backlight => "Backlight"@,
                Class::Led => "Led"@,
            },
    {
        match self {
            Class::Backlight => "Backlight",
            Class::Led => "Led",
        }
    }
}

/// The state a toggle asks for.
#[derive(Debug, Clone, Copy, PartialEq, Eq, Structural)]
pub enum ToggleState {
    On,
    Off,
}

/// What `str::to_lowercase` returns for `s`.
pub uninterp spec fn lower_of(s: Seq<char>) -> Seq<char>;

/// Relies on `str::to_lowercase`: the result depends on the characters alone.
#[verifier::external_body]
fn lowercase(s: &str) -> (r: String)
    ensures
        r@ == lower_of(s@),
{
    s.to_lowercase()
}

/// The state named exactly `t`.
pub open spec fn state_named(t: Seq<char>) -> Option<ToggleState> {
    if t == "on"@ {
        Some(ToggleState::On)
    } else if t == "off"@ {
        Some(ToggleState::Off)
    } else {
        None
    }
}

impl ToggleState {
    /// The state named by the lower-case text `t`.
    pub fn from_lowercase(t: &str) -> (r: Option<ToggleState>)
        ensures
            r == state_named(t@),
    {
        if same_text(t, "on") {
            Some(ToggleState::On)
        } else if same_text(t, "off") {
            Some(ToggleState::Off)
        } else {
            None
        }
    }

    /// The state named by `s` in any letter case: `on` or `off`.
    pub fn parse(s: &str) -> (r: Option<ToggleState>)
        ensures
            r == state_named(lower_of(s@)),
    {
        let t = lowercase(s);
        ToggleState::from_lowercase(t.as_str())
    }
}

/// The level a binary device goes to: `max` for `On`, 0 for `Off`, and the
/// other of its two levels when no state is asked for.
pub open spec fn toggled(b: Brightness, state: Option<ToggleState>) -> usize {
    match state {
        Some(ToggleState::On) => b.max,
        Some(ToggleState::Off) => 0,
        None => b.current ^ 1,
    }
}

/// A device as found: its name, its class and its brightness when read.
#[derive(Debug, Clone)]
pub struct Device {
    pub id: Id,
    pub class: Class,
    pub brightness: Brightness,
}

/// Whether `i` is the first index of `devices` whose name is `id`.
pub open spec fn first_named(devices: Seq<Device>, id: Seq<char>, i: int) -> bool {
    &&& 0 <= i < devices.len()
    &&& devices[i].id@ == id
    &&& forall|j: int| 0 <= j < i ==> devices[j].id@ != id
}

/// Whether `i` is the first index of `devices` that is a backlight.
pub open spec fn first_backlight(devices: Seq<Device>, i: int) -> bool {
    &&& 0 <= i < devices.len()
    &&& devices[i].class == Class::Backlight
    &&& forall|j: int| 0 <= j < i ==> devices[j].class != Class::Backlight
}

/// Whether `devices[i]` is to be listed for the names `ids`: every device
/// when no name is given, else those named.
pub open spec fn is_listed(devices: Seq<Device>, ids: Seq<Id>, i: int) -> bool {
    ids.len() == 0 || exists|j: int| 0 <= j < ids.len() && ids[j]@ == devices[i].id@
}

impl Device {
    pub fn new(id: Id, class: Class, brightness: Brightness) -> (r: Device)
        ensures
            r.id@ == id@,
            r.class == class,
            r.brightness == brightness,
    {
        Device { id, class, brightness }
    }

    pub fn id(&self) -> (r: &Id)
        ensures
            r@ == self.id@,
    {
        &self.id
    }

    pub fn class(&self) -> (r: Class)
        ensures
            r == self.class,
    {
        self.class
    }

    pub fn brightness(&self) -> (r: Brightness)
        ensures
            r == self.brightness,
    {
        self.brightness
    }

    /// Whether the device only has the two levels 0 and 1.
    pub fn is_toggleable(&self) -> (r: bool)
        ensures
            r == (self.brightness.max == 1),
    {
        self.brightness.is_binary()
    }

    /// The level a toggle to `state` sets, or `CannotToggle` for a device
    /// with more than two levels.
    pub fn toggle(&self, state: Option<ToggleState>) -> (r: Result<usize, Error>)
        ensures
            r is Ok <==> self.brightness.max == 1,
            r matches Ok(v) ==> v == toggled(self.brightness, state),
            r matches Ok(v) ==> self.brightness.current <= 1 && state is None ==> v == 1
                - self.brightness.current,
            r matches Err(e) ==> e matches Error::CannotToggle { id, brightness } && id@
                == self.id@ && brightness == self.brightness,
    {
        if self.is_toggleable() {
            let b = self.brightness;
            let v = match state {
                Some(ToggleState::On) => b.max,
                Some(ToggleState::Off) => 0,
                None => b.current ^ 1,
            };
            proof {
                let c = b.current;
                if c <= 1 {
                    assert(c ^ 1 == 1 - c) by (bit_vector)
                        requires
                            c <= 1,
                    ;
                }
            }
            Ok(v)
        } else {
            Err(Error::CannotToggle { id: self.id.cloned(), brightness: self.brightness })
        }
    }

    /// The index of the first device named `id`.
    fn find(devices: &Vec<Device>, id: &Id) -> (r: Option<usize>)
        ensures
            r matches Some(i) ==> first_named(devices@, id@, i as int),
            r is None ==> forall|j: int| 0 <= j < devices@.len() ==> devices@[j].id@ != id@,
    {
        let mut i: usize = 0;
        while i < devices.len()
            invariant
                i <= devices@.len(),
                forall|j: int| 0 <= j < i ==> devices@[j].id@ != id@,
            decreases devices@.len() - i,
        {
            if devices[i].id == *id {
                return Some(i);
            }
            i += 1;
        }
        None
    }

    /// The index of the first backlight.
    fn find_default(devices: &Vec<Device>) -> (r: Option<usize>)
        ensures
            r matches Some(i) ==> first_backlight(devices@, i as int),
            r is None ==> forall|j: int|
                0 <= j < devices@.len() ==> devices@[j].class != Class::Backlight,
    {
        let mut i: usize = 0;
        while i < devices.len()
            invariant
                i <= devices@.len(),
                forall|j: int| 0 <= j < i ==> devices@[j].class != Class::Backlight,
            decreases devices@.len() - i,
        {
            if devices[i].class == Class::Backlight {
                return Some(i);
            }
            i += 1;
        }
        None
    }

    /// The index of the device to work on: the first named `id` when a name
    /// is given, else the first backlight.
    pub fn select(devices: &Vec<Device>, id: &Option<Id>) -> (r: Result<usize, Error>)
        ensures
            match id {
                Some(n) => {
                    &&& r is Ok <==> exists|j: int|
                        0 <= j < devices@.len() && devices@[j].id@ == n@
                    &&& r matches Ok(i) ==> first_named(devices@, n@, i as int)
                    &&& r matches Err(e) ==> e matches Error::SpecifiedDeviceNotFound
                },
                None => {
                    &&& r is Ok <==> exists|j: int|
                        0 <= j < devices@.len() && devices@[j].class == Class::Backlight
                    &&& r matches Ok(i) ==> first_backlight(devices@, i as int)
                    &&& r matches Err(e) ==> e matches Error::SuitableDeviceNotFound
                },
            },
    {
        match id {
            Some(n) => match Device::find(devices, n) {
                Some(i) => Ok(i),
                None => Err(Error::SpecifiedDeviceNotFound),
            },
            None => match Device::find_default(devices) {
                Some(i) => Ok(i),
                None => Err(Error::SuitableDeviceNotFound),
            },
        }
    }

    /// The indices, in order, of the devices to list for the names `ids`
    /// (all of them when `ids` is empty); `NoDevices` when there is none.
    pub fn listed(devices: &Vec<Device>, ids: &Vec<Id>) -> (r: Result<Vec<usize>, Error>)
        ensures
            r is Err <==> devices@.len() == 0,
            r matches Err(e) ==> e matches Error::NoDevices,
            r matches Ok(v) ==> {
                &&& forall|a: int, b: int| 0 <= a < b < v@.len() ==> v@[a] < v@[b]
                &&& forall|a: int| 0 <= a < v@.len() ==> v@[a] < devices@.len()
                &&& forall|i: int|
                    0 <= i < devices@.len() ==> (v@.contains(i as usize) <==> is_listed(
                        devices@,
                        ids@,
                        i,
                    ))
            },
    {
        if devices.len() == 0 {
            return Err(Error::NoDevices);
        }
        let mut out: Vec<usize> = Vec::new();
        let mut i: usize = 0;
        while i < devices.len()
            invariant
                i <= devices@.len(),
                forall|a: int, b: int| 0 <= a < b < out@.len() ==> out@[a] < out@[b],
                forall|a: int| 0 <= a < out@.len() ==> out@[a] < i,
                forall|k: int|
                    0 <= k < i ==> (out@.contains(k as usize) <==> is_listed(devices@, ids@, k)),
            decreases devices@.len() - i,
        {
            let keep = ids.len() == 0 || Device::named_in(&devices[i].id, ids);
            let ghost before = out@;
            if keep {
                out.push(i);
            }
            proof {
                assert forall|k: int| 0 <= k < i implies (#[trigger] out@.contains(k as usize)
                    <==> before.contains(k as usize)) by {
                    if before.contains(k as usize) {
                        let a = choose|a: int| 0 <= a < before.len() && before[a] == k as usize;
                        assert(out@[a] == k as usize);
                    }
                    if out@.contains(k as usize) {
                        let a = choose|a: int| 0 <= a < out@.len() && out@[a] == k as usize;
                        assert(a < before.len());
                        assert(before[a] == k as usize);
                    }
                }
                if keep {
                    assert(out@[out@.len() - 1] == i);
                } else {
                    assert(!before.contains(i));
                }
            }
            i += 1;
        }
        Ok(out)
    }

    /// Whether `ids` holds the name `id`.
    fn named_in(id: &Id, ids: &Vec<Id>) -> (r: bool)
        ensures
            r == exists|j: int| 0 <= j < ids@.len() && ids@[j]@ == id@,
    {
        let mut j: usize = 0;
        while j < ids.len()
            invariant
                j <= ids@.len(),
                forall|k: int| 0 <= k < j ==> ids@[k]@ != id@,
            decreases ids@.len() - j,
        {
            if ids[j] == *id {
                return true;
            }
            j += 1;
        }
        false
    }
}

} // verus!
