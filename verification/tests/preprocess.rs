use safety_profiler::{accepts, cell_type_name, extract_ports, input_label, is_primitive_keyword, process};

const C17_RAW: &str = "\
module c17 (N1, N2, N3, N6, N7, N22, N23);
input N1, N2, N3, N6, N7;
output N22, N23;
nand (N10, N1, N3);
nand (N11, N3, N6);
nand (N16, N2, N11);
nand (N19, N11, N7);
nand (N22, N10, N16);
nand (N23, N16, N19);
endmodule
";

#[test]
fn gate_primitives_become_module_instantiations() {
    let out = process(C17_RAW);
    assert!(out.content.contains("NAND2 g_N10 (.A(N1), .B(N3), .Y(N10));"));
    assert!(out.content.contains("NAND2 g_N22 (.A(N10), .B(N16), .Y(N22));"));
    assert_eq!(out.converted, 6);
}

#[test]
fn no_gate_primitive_syntax_remains() {
    let out = process(C17_RAW);
    assert!(!out.content.contains("nand ("));
}

#[test]
fn internal_wires_declared() {
    let out = process(C17_RAW);
    assert!(out.content.contains("wire"));
    assert!(out.content.contains("N10"));
    assert!(!out.content.contains("wire N22"));
    assert!(!out.content.contains("wire N23"));
}

#[test]
fn timescale_stripped() {
    let src = "`timescale 1ns/1ps\n".to_string() + C17_RAW;
    let out = process(&src);
    assert!(!out.content.contains("`timescale"));
}

#[test]
fn sized_variants_by_input_count() {
    assert_eq!(cell_type_name("nand", 2), "NAND2");
    assert_eq!(cell_type_name("nand", 3), "NAND3");
    assert_eq!(cell_type_name("nand", 4), "NAND4");
    assert_eq!(cell_type_name("nand", 5), "NAND");
    assert_eq!(cell_type_name("not", 1), "NOT");
    assert_eq!(cell_type_name("buf", 1), "BUF");
    assert_eq!(cell_type_name("xor", 2), "XOR2");
}

#[test]
fn three_input_gate() {
    let src = "module m(a,b,c,y);\ninput a,b,c;\noutput y;\nnand (y, a, b, c);\nendmodule\n";
    let out = process(src);
    assert!(out.content.contains("NAND3 g_y (.A(a), .B(b), .C(c), .Y(y));"));
}

#[test]
fn already_named_instance_passes_through() {
    let src = "module m(a,b,y);\ninput a,b;\noutput y;\nNAND2 g1 (.A(a), .B(b), .Y(y));\nendmodule\n";
    let out = process(src);
    assert!(out.content.contains("NAND2 g1 (.A(a), .B(b), .Y(y));"));
    assert_eq!(out.converted, 0);
}

#[test]
fn c17_full_output() {
    let out = process(C17_RAW);
    let expected = "\
module c17 (N1, N2, N3, N6, N7, N22, N23);
input N1, N2, N3, N6, N7;
output N22, N23;
NAND2 g_N10 (.A(N1), .B(N3), .Y(N10));
NAND2 g_N11 (.A(N3), .B(N6), .Y(N11));
NAND2 g_N16 (.A(N2), .B(N11), .Y(N16));
NAND2 g_N19 (.A(N11), .B(N7), .Y(N19));
NAND2 g_N22 (.A(N10), .B(N16), .Y(N22));
NAND2 g_N23 (.A(N16), .B(N19), .Y(N23));
    wire N10, N11, N16, N19;
endmodule
";
    assert_eq!(out.content, expected);
    assert_eq!(out.wires_added, 4);
}

#[test]
fn wires_are_sorted_and_deduplicated() {
    let src = "module m(a,y);\nor (z, a);\nand (b, a);\nnot (z, a);\nendmodule\n";
    let out = process(src);
    assert!(out.content.contains("    wire b, z;\nendmodule\n"));
    assert_eq!(out.wires_added, 2);
    assert_eq!(out.converted, 3);
}

#[test]
fn explicit_wire_declarations_are_not_repeated() {
    let src = "module m(a,y);\nwire n1, n2;;\nnand (n1, a, a);\nnand (n3, n1, a);\nbuf (y, n3);\nendmodule\n";
    let out = process(src);
    assert!(out.content.contains("    wire n3;\nendmodule\n"));
    assert_eq!(out.wires_added, 1);
}

#[test]
fn indentation_is_kept() {
    let src = "module m(a,y);\n\tnot (y, a);\nendmodule\n";
    let out = process(src);
    assert!(out.content.contains("\tNOT g_y (.A(a), .Y(y));\n"));
}

#[test]
fn trailing_whitespace_does_not_change_the_indentation() {
    let src = "module m(a,y);\n  not (y, a);  \nendmodule\n";
    let out = process(src);
    assert!(out.content.contains("\n  NOT g_y (.A(a), .Y(y));\n"));
}

#[test]
fn gate_with_trailing_blanks_is_rewritten_whole() {
    let src = "module m(N1,N3,N10);\nnand (N10, N1, N3);  \nendmodule\n";
    let out = process(src);
    assert_eq!(out.content, "module m(N1,N3,N10);\nNAND2 g_N10 (.A(N1), .B(N3), .Y(N10));\nendmodule\n");
    assert_eq!(out.converted, 1);
    assert_eq!(out.wires_added, 0);
}

#[test]
fn gate_without_inputs_and_unknown_lines() {
    let src = "module m(y);\nbuf (y);\nassign q = 1;\nendmodule\n";
    let out = process(src);
    assert!(out.content.contains("BUF g_y (.Y(y));\n"));
    assert!(out.content.contains("assign q = 1;\n"));
}

#[test]
fn named_instance_with_keyword_prefix_declares_its_first_net() {
    let src = "module m(a,y);\norder_x u1 (q, a);\nendmodule\n";
    let out = process(src);
    assert!(out.content.contains("order_x u1 (q, a);\n    wire q;\nendmodule\n"));
    assert_eq!(out.converted, 0);
    assert_eq!(out.wires_added, 1);
}

#[test]
fn crlf_lines_and_missing_final_newline() {
    let src = "module m(a,y);\r\nnot (y, a);\r\nendmodule";
    let out = process(src);
    assert_eq!(out.content, "module m(a,y);\nNOT g_y (.A(a), .Y(y));\nendmodule\n");
}

#[test]
fn larger_gates_fall_back_to_generic_cells() {
    let src = "module m(a,b,c,d,e,y);\nand (y, a, b, c, d, e);\nxnor (z, a, b, c);\nendmodule\n";
    let out = process(src);
    assert!(out.content.contains("AND g_y (.A(a), .B(b), .C(c), .D(d), .E(e), .Y(y));"));
    assert!(out.content.contains("XNOR g_z (.A(a), .B(b), .C(c), .Y(z));"));
}

#[test]
fn cell_type_names_of_every_primitive() {
    assert_eq!(cell_type_name("and", 3), "AND3");
    assert_eq!(cell_type_name("nor", 4), "NOR4");
    assert_eq!(cell_type_name("or", 2), "OR2");
    assert_eq!(cell_type_name("or", 1), "OR");
    assert_eq!(cell_type_name("xor", 3), "XOR");
    assert_eq!(cell_type_name("xnor", 2), "XNOR2");
    assert_eq!(cell_type_name("not", 2), "NOT");
    assert_eq!(cell_type_name("dff", 2), "DFF");
    assert_eq!(cell_type_name("mux", 3), "MUX");
}

#[test]
fn input_labels() {
    assert_eq!(input_label(0), 'A');
    assert_eq!(input_label(3), 'D');
    assert_eq!(input_label(25), 'Z');
}

#[test]
fn primitive_keywords() {
    for w in ["nand", "and", "nor", "or", "xor", "xnor", "not", "buf"] {
        assert!(is_primitive_keyword(w));
    }
    assert!(!is_primitive_keyword("NAND"));
    assert!(!is_primitive_keyword("nand2"));
    assert!(!is_primitive_keyword(""));
}

#[test]
fn ports_of_a_module_header() {
    let mut p = extract_ports("module foo (A, B, Y, A,  );");
    p.sort();
    assert_eq!(p, vec!["A".to_string(), "B".to_string(), "Y".to_string()]);
    assert!(extract_ports("module foo;").is_empty());
    assert!(extract_ports("module foo ) (").is_empty());
}

#[test]
fn inputs_that_would_panic_are_refused() {
    assert!(accepts(C17_RAW));
    assert!(accepts("é \n"));
    // A named instance whose last ')' comes before its first '('.
    assert!(!accepts("nandx) (\n"));
    assert!(accepts("nandx (a) \n"));
}

#[test]
fn file_without_primitives_is_unchanged() {
    let src = "module m(a,y);\ninput a;\noutput y;\nNOT g_y (.A(a), .Y(y));\nendmodule";
    let out = process(src);
    assert_eq!(out.content, src.to_string() + "\n");
    assert_eq!(out.converted, 0);
    assert_eq!(out.wires_added, 0);
}

#[test]
fn deep_trailing_whitespace_leaves_no_primitive() {
    let src = "module m(a,y);\nnot (y, a);     \nendmodule\n";
    let out = process(src);
    assert_eq!(out.content, "module m(a,y);\nNOT g_y (.A(a), .Y(y));\nendmodule\n");
}

#[test]
fn every_endmodule_gets_the_same_declaration() {
    let src = "module a(x);\nnot (n1, x);\nendmodule\nmodule b(y);\nnot (n2, y);\nendmodule\n";
    let out = process(src);
    assert_eq!(
        out.content,
        "module a(x);\nNOT g_n1 (.A(x), .Y(n1));\n    wire n1, n2;\nendmodule\nmodule b(y);\nNOT g_n2 (.A(y), .Y(n2));\n    wire n1, n2;\nendmodule\n"
    );
    assert_eq!(out.wires_added, 2);
}

#[test]
fn preprocessing_the_output_again_changes_nothing() {
    let src = "`timescale 1ns/1ps\nmodule c(N1,N2,N3);\ninput N1, N2;\noutput N3;\n\tnand (N10, N1, N2);  \nnot (N3, N10);\norx u1 (N11, N1);\nendmodule";
    let r1 = process(src);
    assert_eq!(r1.converted, 2);
    assert_eq!(r1.wires_added, 2);
    let r2 = process(&r1.content);
    assert_eq!(r2.content, r1.content);
    assert_eq!(r2.converted, 0);
    assert_eq!(r2.wires_added, 0);
}
