//! What may keep this user from the printer's USB interface: CUPS queues
//! (parsing `lpstat -v` output, and the warnings and hints built from it) and
//! missing Linux device permissions.
use vstd::prelude::*;
use vstd::string::*;
use crate::markdown::find_from;
use crate::text::{chars_of, hex4, lines_chars, lines_of, push_hex4, trim, trim_bounds};
use crate::text::{contains_exec, contains_seq, occurs_at_exec, starts_with, string_from, sub_chars};

verus! {

/// A CUPS printer that may be claiming a USB interface.
#[derive(Debug, Clone)]
pub struct CupsPrinter {
    pub name: String,
    pub uri: String,
    pub is_usb: bool,
    pub is_epson: bool,
}

pub struct CupsView {
    pub name: Seq<char>,
    pub uri: Seq<char>,
    pub is_usb: bool,
    pub is_epson: bool,
}

impl View for CupsPrinter {
    type V = CupsView;

    open spec fn view(&self) -> CupsView {
        CupsView { name: self.name@, uri: self.uri@, is_usb: self.is_usb, is_epson: self.is_epson }
    }
}

pub open spec fn printers_view(p: Seq<CupsPrinter>) -> Seq<CupsView> {
    p.map_values(|x: CupsPrinter| x@)
}

/// The lowercase form of a text, as Unicode case mapping gives it.
pub uninterp spec fn lower_of(s: Seq<char>) -> Seq<char>;

/// Relies on `str::to_lowercase`: the lowercase mapping of the text, which
/// depends on its characters alone.
#[verifier::external_body]
fn lowercase(s: &str) -> (r: String)
    ensures
        r@ == lower_of(s@),
{
    s.to_lowercase()
}

/// A queue is an Epson one if its URI or its name mentions "epson", in any case.
pub open spec fn mentions_epson(name: Seq<char>, uri: Seq<char>) -> bool {
    contains_seq(lower_of(uri), "epson"@) || contains_seq(lower_of(name), "epson"@)
}

/// The printer of one `device for <name>: <uri>` line, if it is one.
pub open spec fn lpstat_entry(line: Seq<char>) -> Option<CupsView> {
    let t = trim(line);
    let prefix = "device for "@;
    if !starts_with(t, prefix) {
        None
    } else {
        let rest = t.subrange(prefix.len() as int, t.len() as int);
        match find_from(rest, 0, ": "@) {
            None => None,
            Some(k) => {
                let name = trim(rest.subrange(0, k));
                let uri = trim(rest.subrange(k + 2, rest.len() as int));
                Some(
                    CupsView {
                        name,
                        uri,
                        is_usb: starts_with(uri, "usb://"@),
                        is_epson: mentions_epson(name, uri),
                    },
                )
            },
        }
    }
}

pub open spec fn lpstat_entries(ls: Seq<Seq<char>>) -> Seq<CupsView>
    decreases ls.len(),
{
    if ls.len() == 0 {
        Seq::empty()
    } else {
        lpstat_entries(ls.drop_last()) + match lpstat_entry(ls.last()) {
            Some(p) => seq![p],
            None => Seq::empty(),
        }
    }
}

fn trimmed_string(v: &[char]) -> (r: String)
    ensures
        r@ == trim(v@),
{
    let (a, b) = trim_bounds(v);
    string_from(v, a, b)
}

/// Parses one `lpstat -v` line.
fn parse_lpstat_line(line: &Vec<char>) -> (r: Option<CupsPrinter>)
    ensures
        match r {
            Some(p) => lpstat_entry(line@) == Some(p@),
            None => lpstat_entry(line@) is None,
        },
{
    let (a, b) = trim_bounds(line.as_slice());
    let t = sub_chars(line.as_slice(), a, b);
    let prefix = chars_of("device for ");
    if !occurs_at_exec(t.as_slice(), prefix.as_slice(), 0) {
        return None;
    }
    proof {
        reveal_strlit("device for ");
    }
    let n = t.len();
    let rest = sub_chars(t.as_slice(), 11, n);
    let sep = chars_of(": ");
    proof {
        reveal_strlit(": ");
    }
    let mut k: usize = 0;
    while k < rest.len() && !occurs_at_exec(rest.as_slice(), sep.as_slice(), k)
        invariant
            k <= rest@.len(),
            sep@ == ": "@,
            sep@.len() == 2,
            find_from(rest@, k as int, sep@) == find_from(rest@, 0, sep@),
        decreases rest.len() - k,
    {
        k = k + 1;
    }
    if k >= rest.len() {
        return None;
    }
    assert(find_from(rest@, 0, sep@) == Some(k as int));
    assert(k + 2 <= rest@.len());
    let name_chars = sub_chars(rest.as_slice(), 0, k);
    let name = trimmed_string(name_chars.as_slice());
    let rn = rest.len();
    let uri_chars = sub_chars(rest.as_slice(), k + 2, rn);
    let uri = trimmed_string(uri_chars.as_slice());
    let usb = chars_of("usb://");
    let uri_v = chars_of(uri.as_str());
    let is_usb = occurs_at_exec(uri_v.as_slice(), usb.as_slice(), 0);
    let epson = chars_of("epson");
    let lower_uri = lowercase(uri.as_str());
    let lower_name = lowercase(name.as_str());
    let is_epson = contains_exec(chars_of(lower_uri.as_str()).as_slice(), epson.as_slice())
        || contains_exec(chars_of(lower_name.as_str()).as_slice(), epson.as_slice());
    Some(CupsPrinter { name, uri, is_usb, is_epson })
}

/// Parses `lpstat -v` output into printers, one per `device for <name>: <uri>` line.
pub fn parse_lpstat_output(output: &str) -> (r: Vec<CupsPrinter>)
    ensures
        printers_view(r@) == lpstat_entries(lines_of(output@)),
{
    let chars = chars_of(output);
    let lines = lines_chars(&chars);
    let ghost ls = lines@.map_values(|x: Vec<char>| x@);
    let mut printers: Vec<CupsPrinter> = Vec::new();
    let mut i: usize = 0;
    assert(ls.subrange(0, 0) =~= Seq::<Seq<char>>::empty());
    assert(printers_view(printers@) =~= Seq::<CupsView>::empty());
    while i < lines.len()
        invariant
            i <= lines@.len(),
            ls == lines@.map_values(|x: Vec<char>| x@),
            printers_view(printers@) == lpstat_entries(ls.subrange(0, i as int)),
        decreases lines.len() - i,
    {
        assert(ls.subrange(0, i + 1).drop_last() =~= ls.subrange(0, i as int));
        assert(ls.subrange(0, i + 1).last() == lines@[i as int]@);
        let ghost before = printers_view(printers@);
        match parse_lpstat_line(&lines[i]) {
            Some(p) => {
                let ghost pv = p@;
                printers.push(p);
                assert(printers_view(printers@) =~= before.push(pv));
            },
            None => {},
        }
        i = i + 1;
        assert(printers_view(printers@) =~= lpstat_entries(ls.subrange(0, i as int)));
    }
    assert(ls.subrange(0, ls.len() as int) =~= ls);
    printers
}

/// The queues that claim an Epson printer over USB.
pub open spec fn conflicting(ps: Seq<CupsView>) -> Seq<CupsView>
    decreases ps.len(),
{
    if ps.len() == 0 {
        Seq::empty()
    } else {
        conflicting(ps.drop_last()) + if ps.last().is_usb && ps.last().is_epson {
            seq![ps.last()]
        } else {
            Seq::empty()
        }
    }
}

/// The warning for one conflicting queue.
pub open spec fn conflict_warning(name: Seq<char>) -> Seq<char> {
    "CUPS conflict: \""@ + name
        + "\" is claiming USB. Remove it from System Settings > Printers & Scanners, or run: lpadmin -x "@
        + name
}

/// One warning per CUPS queue that claims an Epson printer over USB.
pub fn check_usb_access(printers: &[CupsPrinter]) -> (r: Vec<String>)
    ensures
        r@.map_values(|s: String| s@) == conflicting(printers_view(printers@)).map_values(
            |p: CupsView| conflict_warning(p.name),
        ),
{
    let ghost pv = printers_view(printers@);
    let mut warnings: Vec<String> = Vec::new();
    let mut i: usize = 0;
    assert(pv.subrange(0, 0) =~= Seq::<CupsView>::empty());
    assert(warnings@.map_values(|s: String| s@) =~= Seq::<Seq<char>>::empty());
    while i < printers.len()
        invariant
            i <= printers@.len(),
            pv == printers_view(printers@),
            warnings@.map_values(|s: String| s@) == conflicting(pv.subrange(0, i as int)).map_values(
                |p: CupsView| conflict_warning(p.name),
            ),
        decreases printers.len() - i,
    {
        let p = &printers[i];
        assert(pv.subrange(0, i + 1).drop_last() =~= pv.subrange(0, i as int));
        assert(pv.subrange(0, i + 1).last() == p@);
        let ghost before = warnings@.map_values(|s: String| s@);
        if p.is_usb && p.is_epson {
            let mut w = String::new();
            w.append("CUPS conflict: \"");
            w.append(p.name.as_str());
            w.append(
                "\" is claiming USB. Remove it from System Settings > Printers & Scanners, or run: lpadmin -x ",
            );
            w.append(p.name.as_str());
            assert(w@ =~= conflict_warning(p.name@));
            warnings.push(w);
            assert(warnings@.map_values(|s: String| s@) =~= before.push(conflict_warning(p.name@)));
        }
        i = i + 1;
        assert(warnings@.map_values(|s: String| s@) =~= conflicting(pv.subrange(0, i as int)).map_values(
            |p: CupsView| conflict_warning(p.name),
        ));
    }
    assert(pv.subrange(0, pv.len() as int) =~= pv);
    warnings
}

/// A queue claims the named printer if it is a USB Epson queue whose name and
/// the printer's name contain one another, ignoring case.
pub open spec fn claims(p: CupsView, printer_name: Seq<char>) -> bool {
    p.is_usb && p.is_epson && (contains_seq(lower_of(p.name), lower_of(printer_name))
        || contains_seq(lower_of(printer_name), lower_of(p.name)))
}

/// Checks whether a printer name is claimed by a CUPS queue over USB.
pub fn is_claimed_by_cups(printers: &[CupsPrinter], printer_name: &str) -> (r: bool)
    ensures
        r == exists|i: int| 0 <= i < printers@.len() && claims(#[trigger] printers@[i]@, printer_name@),
{
    let wanted = chars_of(lowercase(printer_name).as_str());
    let mut i: usize = 0;
    while i < printers.len()
        invariant
            i <= printers@.len(),
            wanted@ == lower_of(printer_name@),
            forall|k: int| 0 <= k < i ==> !claims(#[trigger] printers@[k]@, printer_name@),
        decreases printers.len() - i,
    {
        let p = &printers[i];
        if p.is_usb && p.is_epson {
            let name = chars_of(lowercase(p.name.as_str()).as_str());
            if contains_exec(name.as_slice(), wanted.as_slice()) || contains_exec(
                wanted.as_slice(),
                name.as_slice(),
            ) {
                assert(claims(printers@[i as int]@, printer_name@));
                return true;
            }
        }
        i = i + 1;
    }
    false
}

pub open spec fn names_joined(ps: Seq<CupsView>) -> Seq<char>
    decreases ps.len(),
{
    if ps.len() == 0 {
        Seq::empty()
    } else if ps.len() == 1 {
        ps[0].name
    } else {
        names_joined(ps.drop_last()) + ", "@ + ps.last().name
    }
}

pub open spec fn removal_lines(ps: Seq<CupsView>) -> Seq<char>
    decreases ps.len(),
{
    if ps.len() == 0 {
        Seq::empty()
    } else if ps.len() == 1 {
        "  lpadmin -x "@ + ps[0].name
    } else {
        removal_lines(ps.drop_last()) + "\n  lpadmin -x "@ + ps.last().name
    }
}

/// The message shown when opening the USB device failed.
pub open spec fn hint_spec(ps: Seq<CupsView>, product_id: u16, err: Seq<char>) -> Seq<char> {
    let c = conflicting(ps);
    if c.len() == 0 {
        "Failed to open USB device (PID "@ + hex4(product_id) + "): "@ + err
            + "\nTip: On macOS, check System Settings > Privacy & Security > USB access."@
    } else {
        "Cannot open USB device (PID "@ + hex4(product_id)
            + "): macOS CUPS driver is claiming the interface.\nConflicting CUPS printer(s): "@
            + names_joined(c)
            + "\nFix: Remove from System Settings > Printers & Scanners, or run:\n"@
            + removal_lines(c)
    }
}

/// Builds a readable error for a failed USB open, naming CUPS queues that hold the device.
pub fn cups_conflict_hint(printers: &[CupsPrinter], product_id: u16, open_error: &str) -> (r:
    String)
    ensures
        r@ == hint_spec(printers_view(printers@), product_id, open_error@),
{
    let ghost pv = printers_view(printers@);
    let mut names = String::new();
    let mut fixes = String::new();
    let mut count: usize = 0;
    let mut i: usize = 0;
    assert(pv.subrange(0, 0) =~= Seq::<CupsView>::empty());
    while i < printers.len()
        invariant
            i <= printers@.len(),
            pv == printers_view(printers@),
            count == conflicting(pv.subrange(0, i as int)).len(),
            count <= i,
            names@ == names_joined(conflicting(pv.subrange(0, i as int))),
            fixes@ == removal_lines(conflicting(pv.subrange(0, i as int))),
        decreases printers.len() - i,
    {
        let p = &printers[i];
        let ghost c0 = conflicting(pv.subrange(0, i as int));
        assert(pv.subrange(0, i + 1).drop_last() =~= pv.subrange(0, i as int));
        assert(pv.subrange(0, i + 1).last() == p@);
        if p.is_usb && p.is_epson {
            let ghost c1 = c0.push(p@);
            assert(conflicting(pv.subrange(0, i + 1)) =~= c1);
            assert(c1.drop_last() =~= c0);
            if count > 0 {
                names.append(", ");
                fixes.append("\n");
            }
            names.append(p.name.as_str());
            fixes.append("  lpadmin -x ");
            fixes.append(p.name.as_str());
            proof {
                reveal_strlit("\n");
                reveal_strlit("  lpadmin -x ");
                reveal_strlit("\n  lpadmin -x ");
            }
            if count == 0 {
                assert(c0.len() == 0);
                assert(c1 =~= seq![p@]);
                assert(names@ =~= names_joined(c1));
                assert(fixes@ =~= removal_lines(c1));
            } else {
                assert(names@ =~= names_joined(c1));
                assert(fixes@ =~= removal_lines(c1));
            }
            count = count + 1;
        } else {
            assert(conflicting(pv.subrange(0, i + 1)) =~= c0);
        }
        i = i + 1;
    }
    assert(pv.subrange(0, pv.len() as int) =~= pv);
    let mut r = String::new();
    if count == 0 {
        r.append("Failed to open USB device (PID ");
        push_hex4(&mut r, product_id);
        r.append("): ");
        r.append(open_error);
        r.append("\nTip: On macOS, check System Settings > Privacy & Security > USB access.");
    } else {
        r.append("Cannot open USB device (PID ");
        push_hex4(&mut r, product_id);
        r.append("): macOS CUPS driver is claiming the interface.\nConflicting CUPS printer(s): ");
        r.append(names.as_str());
        r.append("\nFix: Remove from System Settings > Printers & Scanners, or run:\n");
        r.append(fixes.as_str());
    }
    r
}


pub open spec fn udev_warning() -> Seq<char> {
    "Linux: udev rules not found at /etc/udev/rules.d/99-epson-receipt.rules. Install them for non-root USB access. See assets/udev/99-epson-receipt.rules."@
}

pub open spec fn group_warning() -> Seq<char> {
    "Linux: Current user not in 'plugdev' or 'lp' group. USB printer access may require group membership."@
}

/// The Linux warnings: the udev rules are missing, or the user's groups (when
/// known) include neither `plugdev` nor `lp`.
pub open spec fn linux_warnings(rules_present: bool, groups: Option<Seq<char>>) -> Seq<Seq<char>> {
    (if rules_present {
        Seq::empty()
    } else {
        seq![udev_warning()]
    }) + match groups {
        Some(g) => if !contains_seq(g, "plugdev"@) && !contains_seq(g, "lp"@) {
            seq![group_warning()]
        } else {
            Seq::empty()
        },
        None => Seq::empty(),
    }
}

pub open spec fn opt_view(g: Option<&str>) -> Option<Seq<char>> {
    match g {
        Some(x) => Some(x@),
        None => None,
    }
}

/// Warnings about USB access on Linux, from whether the udev rules file exists
/// and the output of `groups`, if it could be run.
pub fn linux_usb_warnings(rules_present: bool, groups: Option<&str>) -> (r: Vec<String>)
    ensures
        r@.map_values(|s: String| s@) == linux_warnings(rules_present, opt_view(groups)),
{
    let mut warnings: Vec<String> = Vec::new();
    if !rules_present {
        warnings.push(String::from_str(
            "Linux: udev rules not found at /etc/udev/rules.d/99-epson-receipt.rules. Install them for non-root USB access. See assets/udev/99-epson-receipt.rules.",
        ));
    }
    let ghost first = warnings@.map_values(|s: String| s@);
    assert(first =~= (if rules_present {
        Seq::empty()
    } else {
        seq![udev_warning()]
    }));
    match groups {
        Some(g) => {
            let gv = chars_of(g);
            if !contains_exec(gv.as_slice(), chars_of("plugdev").as_slice()) && !contains_exec(
                gv.as_slice(),
                chars_of("lp").as_slice(),
            ) {
                warnings.push(String::from_str(
                    "Linux: Current user not in 'plugdev' or 'lp' group. USB printer access may require group membership.",
                ));
                assert(warnings@.map_values(|s: String| s@) =~= first.push(group_warning()));
            }
        },
        None => {},
    }
    assert(warnings@.map_values(|s: String| s@) =~= linux_warnings(rules_present, opt_view(groups)));
    warnings
}
} // verus!
