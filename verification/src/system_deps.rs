//! What the developer tool checks before building on Linux: which system packages are
//! missing, given what probing the machine found, and whether GNOME's accessibility
//! switch, which AT-SPI typing needs, is off. Running the probes is the caller's.

use vstd::prelude::*;
use crate::text::{same_text, trim, trim_str};

verus! {

/// The pkg-config modules the build needs, each with the apt package that provides it.
pub open spec fn linux_libs() -> Seq<(Seq<char>, Seq<char>)> {
    seq![
        ("dbus-1"@, "libdbus-1-dev"@),
        ("webkit2gtk-4.1"@, "libwebkit2gtk-4.1-dev"@),
        ("openssl"@, "libssl-dev"@),
        ("ayatana-appindicator3-0.1"@, "libayatana-appindicator3-dev"@),
        ("librsvg-2.0"@, "librsvg2-dev"@),
        ("atspi-2"@, "at-spi2-core"@),
    ]
}

/// The pkg-config modules to probe, each with the apt package that provides it, in order.
pub fn linux_lib_packages() -> (r: Vec<(&'static str, &'static str)>)
    ensures
        r.deep_view() == linux_libs(),
{
    let r = vec![
        ("dbus-1", "libdbus-1-dev"),
        ("webkit2gtk-4.1", "libwebkit2gtk-4.1-dev"),
        ("openssl", "libssl-dev"),
        ("ayatana-appindicator3-0.1", "libayatana-appindicator3-dev"),
        ("librsvg-2.0", "librsvg2-dev"),
        ("atspi-2", "at-spi2-core"),
    ];
    assert(r.deep_view() =~= linux_libs());
    r
}

/// The apt packages of the libraries that were not found, in order.
pub open spec fn missing_libs(libs: Seq<(Seq<char>, Seq<char>)>, found: Seq<bool>) -> Seq<Seq<char>>
    decreases libs.len(),
{
    if libs.len() == 0 || found.len() == 0 {
        Seq::empty()
    } else {
        let rest = missing_libs(libs.drop_last(), found.drop_last());
        if found.last() {
            rest
        } else {
            rest.push(libs.last().1)
        }
    }
}

/// Everything to install: pkg-config itself, the libraries, the libxdo headers and a C
/// compiler, each when its probe failed, in that order.
pub open spec fn missing_packages(pkg_config_ok: bool, lib_found: Seq<bool>, xdo_header: bool, cc_ok: bool) -> Seq<Seq<char>> {
    (if pkg_config_ok { Seq::empty() } else { seq!["pkg-config"@] }) + missing_libs(linux_libs(), lib_found)
        + (if xdo_header { Seq::empty() } else { seq!["libxdo-dev"@] }) + (if cc_ok {
        Seq::empty()
    } else {
        seq!["build-essential"@]
    })
}

/// The packages to install, from the probes: whether `pkg-config --version` ran, whether
/// each of `linux_lib_packages` was found, whether `/usr/include/xdo.h` exists and whether
/// `cc --version` ran.
pub fn missing_linux_packages(pkg_config_ok: bool, lib_found: &Vec<bool>, xdo_header: bool, cc_ok: bool) -> (r: Vec<&'static str>)
    requires
        lib_found.len() == 6,
    ensures
        r.deep_view() == missing_packages(pkg_config_ok, lib_found@, xdo_header, cc_ok),
{
    let mut r: Vec<&'static str> = Vec::new();
    if !pkg_config_ok {
        r.push("pkg-config");
    }
    let ghost head = r.deep_view();
    assert(head =~= (if pkg_config_ok { Seq::<Seq<char>>::empty() } else { seq!["pkg-config"@] }));
    let libs = linux_lib_packages();
    assert(libs.len() == libs.deep_view().len());
    for i in 0..libs.len()
        invariant
            libs.deep_view() == linux_libs(),
            lib_found.len() == 6,
            libs.len() == 6,
            r.deep_view() == head + missing_libs(
                linux_libs().take(i as int),
                lib_found@.take(i as int),
            ),
    {
        let ghost before = r.deep_view();
        assert(linux_libs().take(i + 1).drop_last() =~= linux_libs().take(i as int));
        assert(lib_found@.take(i + 1).drop_last() =~= lib_found@.take(i as int));
        assert(linux_libs().take(i + 1).last() == libs.deep_view()[i as int]);
        if !lib_found[i] {
            r.push(libs[i].1);
            assert(r.deep_view() =~= before.push(libs@[i as int].1@));
        }
        assert(r.deep_view() =~= head + missing_libs(
            linux_libs().take(i + 1),
            lib_found@.take(i + 1),
        ));
    }
    assert(linux_libs().take(6) =~= linux_libs());
    assert(lib_found@.take(6) =~= lib_found@);
    let ghost mid = r.deep_view();
    if !xdo_header {
        r.push("libxdo-dev");
    }
    assert(r.deep_view() =~= mid + (if xdo_header { Seq::<Seq<char>>::empty() } else { seq!["libxdo-dev"@] }));
    let ghost mid2 = r.deep_view();
    if !cc_ok {
        r.push("build-essential");
    }
    assert(r.deep_view() =~= mid2 + (if cc_ok { Seq::<Seq<char>>::empty() } else { seq!["build-essential"@] }));
    r
}

/// `items` joined with `sep` between them.
pub open spec fn joined(items: Seq<Seq<char>>, sep: Seq<char>) -> Seq<char>
    decreases items.len(),
{
    if items.len() == 0 {
        Seq::empty()
    } else if items.len() == 1 {
        items[0]
    } else {
        joined(items.drop_last(), sep) + sep + items.last()
    }
}

/// `items` joined with `sep` between them, as `[&str]::join` does.
pub fn join(items: &Vec<&str>, sep: &str) -> (r: String)
    ensures
        r@ == joined(items.deep_view(), sep@),
{
    let mut r = String::new();
    for i in 0..items.len()
        invariant
            r@ == joined(items.deep_view().take(i as int), sep@),
    {
        assert(items.deep_view().take(i + 1).drop_last() =~= items.deep_view().take(i as int));
        if i > 0 {
            r.append(sep);
        } else {
            assert(items.deep_view().take(0) =~= Seq::<Seq<char>>::empty());
        }
        r.append(items[i]);
        assert(r@ =~= joined(items.deep_view().take(i + 1), sep@));
    }
    assert(items.deep_view().take(items.len() as int) =~= items.deep_view());
    r
}

/// The line that names the missing packages.
pub fn missing_report(missing: &Vec<&str>) -> (r: String)
    ensures
        r@ == "Missing Linux system dependencies: "@ + joined(missing.deep_view(), ", "@),
{
    let mut r = String::from_str("Missing Linux system dependencies: ");
    r.append(join(missing, ", ").as_str());
    r
}

/// The command to install the missing packages by hand.
pub fn install_hint(missing: &Vec<&str>) -> (r: String)
    ensures
        r@ == "  sudo apt install "@ + joined(missing.deep_view(), " "@),
{
    let mut r = String::from_str("  sudo apt install ");
    r.append(join(missing, " ").as_str());
    r
}

/// Whether `gsettings get org.gnome.desktop.interface toolkit-accessibility` printed
/// `false`, so that the switch needs turning on.
pub fn accessibility_disabled(gsettings_output: &str) -> (r: bool)
    ensures
        r == (trim(gsettings_output@) == "false"@),
{
    let t = trim_str(gsettings_output);
    same_text(t.as_str(), "false")
}

} // verus!
