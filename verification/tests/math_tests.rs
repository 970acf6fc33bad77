use docxkit::math::{from_latex, MathNode};

fn s(n: &MathNode) -> String {
    let mut out: Vec<u8> = Vec::new();
    n.write(&mut out);
    String::from_utf8(out).unwrap()
}

#[test]
fn fraction() {
    let x = s(&MathNode::Fraction(
        Box::new(MathNode::run("1")),
        Box::new(MathNode::run("2")),
    ));
    assert!(x.contains("<m:f>"), "{x}");
    assert!(x.contains("<m:num><m:r><m:t>1</m:t>"), "{x}");
    assert!(x.contains("<m:den><m:r><m:t>2</m:t>"), "{x}");
}

#[test]
fn power_and_sqrt() {
    let p = s(&MathNode::Sup(
        Box::new(MathNode::run("x")),
        Box::new(MathNode::run("2")),
    ));
    assert!(p.contains("<m:sSup>"), "{p}");
    let r = s(&MathNode::Radical(None, Box::new(MathNode::run("x"))));
    assert!(r.contains("<m:rad>"), "{r}");
    assert!(r.contains(r#"<m:degHide m:val="1"/>"#), "{r}");
}

#[test]
fn nary_sum_and_delim() {
    let sum = s(&MathNode::Nary(
        "\u{2211}".into(),
        Box::new(MathNode::run("i=1")),
        Box::new(MathNode::run("n")),
        Box::new(MathNode::run("i")),
    ));
    assert!(sum.contains("<m:nary>"), "{sum}");
    assert!(sum.contains(r#"<m:chr m:val="∑"/>"#), "{sum}");
    let d = s(&MathNode::Delimiter(
        "(".into(),
        ")".into(),
        vec![MathNode::run("x")],
    ));
    assert!(d.contains(r#"<m:begChr m:val="("/>"#), "{d}");
}

#[test]
fn omath_para_wraps_with_ns() {
    let bytes = MathNode::run("x").to_omath_para_bytes().unwrap();
    let x = String::from_utf8(bytes).unwrap();
    assert!(x.contains("m:oMathPara"), "{x}");
    assert!(x.contains("xmlns:m="), "{x}");
    assert!(x.contains("<m:oMath>"), "{x}");
}

#[test]
fn matrix_and_bar() {
    let m = MathNode::Matrix(vec![
        vec![MathNode::run("a"), MathNode::run("b")],
        vec![MathNode::run("c"), MathNode::run("d")],
    ]);
    let x = s(&m);
    assert!(x.contains("<m:m>"), "{x}");
    assert!(x.contains("<m:mr>"), "{x}");
    assert_eq!(x.matches("<m:mr>").count(), 2, "{x}");
    let b = s(&MathNode::Bar(Box::new(MathNode::run("x"))));
    assert!(b.contains("<m:bar>"), "{b}");
    assert!(b.contains("<m:barPr>"), "{b}");
}

#[test]
fn latex_fraction_power() {
    let n = from_latex(r"\frac{a}{b}^2");
    let x = s(&n);
    // \frac{a}{b} then ^2 binds to the fraction
    assert!(x.contains("<m:sSup>"), "{x}");
    assert!(x.contains("<m:f>"), "{x}");
    assert!(x.contains("<m:t>a</m:t>"), "{x}");
    assert!(x.contains("<m:t>2</m:t>"), "{x}");
}

#[test]
fn latex_sqrt_sum_greek() {
    let r = s(&from_latex(r"\sqrt{x}"));
    assert!(r.contains("<m:rad>"), "{r}");
    let sum = s(&from_latex(r"\sum_{i=1}^{n} i"));
    assert!(sum.contains("<m:nary>"), "{sum}");
    assert!(sum.contains(r#"<m:chr m:val="∑"/>"#), "{sum}");
    let g = s(&from_latex(r"\alpha + \beta"));
    assert!(g.contains("<m:t>α</m:t>"), "{g}");
    assert!(g.contains("<m:t>β</m:t>"), "{g}");
}

#[test]
fn latex_subscript_and_func() {
    let sub = s(&from_latex(r"x_{i}"));
    assert!(sub.contains("<m:sSub>"), "{sub}");
    let f = s(&from_latex(r"\sin{x}"));
    assert!(f.contains("<m:func>"), "{f}");
    assert!(f.contains("<m:t>sin</m:t>"), "{f}");
}

#[test]
fn unknown_command_reads_as_its_name() {
    match from_latex(r"\foo") {
        MathNode::Run(s) => assert_eq!(s, "foo"),
        other => panic!("{other:?}"),
    }
}
