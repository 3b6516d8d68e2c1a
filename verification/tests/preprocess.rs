use bubble_simulation::gpu::preprocess::{
    assembles, build, build_render, Precision, ShaderModule,
};

/// A table with the shape of the shader set: what asks for what.
fn modules() -> Vec<ShaderModule> {
    let sources = [
        ("common", "struct SimParams {\n    nx: u32,\n}\n"),
        ("potential", "//!include common\nfn dpotential(phi: flt) -> flt { return phi; }\n"),
        (
            "eos",
            "//!include common\n//!include potential\nfn eos_wave_speeds(v: flt) -> flt { return v; }\n",
        ),
        ("primitives", "//!include eos\nfn main() {}\n"),
        ("step", "//!include common\n//!include potential\n//!include eos\nfn main() {}\n"),
        ("init", "//!include eos\nfn main() {}\n"),
        ("nucleate", "//!include potential\nfn main() {}\n"),
        ("vis", "//!include eos\nfn main() {}\n"),
        ("reduce", "//!include eos\nfn reduce_pass1() {}\nfn reduce_pass2() {}\n"),
        ("volume", "fn vs_main() {}\nfn fs_main() {}\n"),
    ];
    sources
        .iter()
        .map(|(name, source)| ShaderModule { name: name.to_string(), source: source.to_string() })
        .collect()
}

fn table(entries: &[(&str, &str)]) -> Vec<ShaderModule> {
    entries
        .iter()
        .map(|(n, t)| ShaderModule { name: n.to_string(), source: t.to_string() })
        .collect()
}

#[test]
fn includes_are_resolved_once() {
    // Both `step` and its include `eos` pull in `common`.
    let src = build("step", Precision::Single, &modules());
    assert_eq!(src.matches("struct SimParams").count(), 1);
    assert!(src.contains("alias flt = f32;"));
    assert!(src.contains("fn eos_wave_speeds"));
    assert!(src.contains("fn dpotential"));
    assert!(!src.contains("//!include"));
}

#[test]
fn every_module_assembles() {
    let all = modules();
    for m in &all {
        let name = m.name.as_str();
        assert!(assembles(name, &all));
        let src = if name == "volume" {
            build_render(name, &all)
        } else {
            build(name, Precision::Single, &all)
        };
        assert!(!src.contains("//!include"), "{name} has unresolved includes");
    }
}

#[test]
fn pieces_come_in_order() {
    let all = table(&[
        ("a", "one\n//!include b\ntwo\n//!include c\nthree"),
        ("b", "  //!include   c  \nb-line\r\n"),
        ("c", "//!include a\nc-line\n\nlast\r"),
    ]);
    assert_eq!(build_render("a", &all), "one\nc-line\n\nlast\r\nb-line\ntwo\nthree\n");
    assert_eq!(
        build("b", Precision::Single, &all),
        "alias flt = f32;\none\ntwo\nthree\nc-line\n\nlast\r\nb-line\n"
    );
}

#[test]
fn a_module_may_ask_for_itself() {
    let all = table(&[("a", "//!include a\nx")]);
    assert!(assembles("a", &all));
    assert_eq!(build_render("a", &all), "x\n");
}

#[test]
fn unknown_modules_are_noticed() {
    let all = table(&[("a", "//!include b\nx"), ("b", "//!include nowhere"), ("c", "y")]);
    assert!(!assembles("a", &all));
    assert!(!assembles("b", &all));
    assert!(!assembles("missing", &all));
    // What is not reached does not matter.
    assert!(assembles("c", &all));
    assert_eq!(build_render("c", &all), "y\n");
}

#[test]
fn lines_and_blanks_are_those_of_the_standard_library() {
    for text in ["", "\n", "a", "a\n", "a\r\n", "a\r", "\r\n\r\n", "a\n\nb", " \u{85}a\u{3000}\n"] {
        let all = table(&[("m", text)]);
        let expected: String = text.lines().map(|l| format!("{l}\n")).collect();
        assert_eq!(build_render("m", &all), expected);
    }
    // The mark need not be followed by a blank, and may be indented by any.
    let all = table(&[("m", "\u{2003}//!includeb\u{a0}\nx //!include b"), ("b", "y")]);
    assert_eq!(build_render("m", &all), "y\nx //!include b\n");
}
