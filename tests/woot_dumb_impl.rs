use crdt_list::test::Action;
use crdt_list::woot_dumb_impl::WootImpl;

#[test]
fn woot_dumb_impl_run() {
    for i in 0..100 {
        assert!(crdt_list::test::test::<WootImpl>(i, 2, 1000));
    }
}

#[test]
fn woot_dumb_impl_run3() {
    for seed in 0..100 {
        assert!(crdt_list::test::test::<WootImpl>(seed, 3, 1000));
    }
}

#[test]
fn woot_dumb_impl_run_n() {
    for n in 2..10 {
        assert!(crdt_list::test::test::<WootImpl>(123, n, 10000));
    }
}

#[test]
fn issue_del() {
    assert!(crdt_list::test::test_with_actions::<WootImpl>(
        5,
        100,
        vec![
            Action::Delete {
                client_id: 15336116641672254676,
                pos: 15336116641672254676,
                len: 15336116641672254676,
            },
            Action::Delete {
                client_id: 15336116641672254676,
                pos: 15336116641672254676,
                len: 16999940517776381140,
            },
            Action::Delete {
                client_id: 15336116641672260587,
                pos: 15336116641672254676,
                len: 15336116641672254676,
            },
            Action::Delete {
                client_id: 9571509118638019796,
                pos: 16999940615146079364,
                len: 1446803443202911211,
            },
            Action::Sync {
                from: 18446744073709551615,
                to: 16999962371294232575,
            },
            Action::Delete {
                client_id: 16999940616948018155,
                pos: 16999940616948018155,
                len: 17005592192949660651,
            },
            Action::Delete {
                client_id: 16999940616948018155,
                pos: 16999940616948018155,
                len: 18446744073372691435,
            },
            Action::Delete {
                client_id: 16999940702848412651,
                pos: 16999940616948018155,
                len: 16999940616948018155,
            },
            Action::Delete {
                client_id: 16999962693416774635,
                pos: 16999940616948018155,
                len: 9548903258742582251,
            },
            Action::Delete {
                client_id: 18446744073709551615,
                pos: 18446744073709551615,
                len: 18446744073709551615,
            },
            Action::Delete {
                client_id: 18446744073709551615,
                pos: 18446744073709551615,
                len: 18446743103046942719,
            },
            Action::Delete {
                client_id: 18411986881299349503,
                pos: 4294967295,
                len: 9548902812537061376,
            },
            Action::NewOp {
                client_id: 9548902814626120836,
                pos: 16999940616948018048,
            },
            Action::Sync {
                from: 18446743060434129940,
                to: 18446744073709551615,
            },
            Action::Delete {
                client_id: 16999940616948607979,
                pos: 16999940616948018155,
                len: 16981926218438536171,
            },
            Action::Delete {
                client_id: 16999940616948018155,
                pos: 16999940616948018155,
                len: 16999940616948018155,
            },
            Action::Delete {
                client_id: 16999940616949328895,
                pos: 16999940616948023275,
                len: 16999940616948018155,
            },
            Action::Delete {
                client_id: 18441092497706576875,
                pos: 16999940616949334015,
                len: 15625477333024561368,
            },
            Action::Delete {
                client_id: 15625477333024561368,
                pos: 15625477333024561368,
                len: 15625477333024561368,
            },
            Action::Delete {
                client_id: 15625477333024561368,
                pos: 15625477333024561368,
                len: 15625477333024561368,
            },
            Action::Delete {
                client_id: 15625477333024561368,
                pos: 16999940616946768088,
                len: 16999940616948018155,
            },
            Action::Delete {
                client_id: 16999940616948018155,
                pos: 16999962607517433855,
                len: 16999940702847364075,
            },
            Action::Delete {
                client_id: 16999940616948018155,
                pos: 16999940616948018155,
                len: 16999962693416774635,
            },
            Action::Delete {
                client_id: 15625477333024561368,
                pos: 15625477333024561368,
                len: 15625477333024561368,
            },
            Action::Delete {
                client_id: 15625477333024561368,
                pos: 15625477333024561368,
                len: 15625477333024561368,
            },
            Action::Delete {
                client_id: 15625477333024561368,
                pos: 15625477333024561368,
                len: 15625477333024561194,
            },
            Action::Delete {
                client_id: 15625477333024561368,
                pos: 16999940535023622360,
                len: 16999940616948018155,
            },
            Action::Delete {
                client_id: 6762414324905410559,
                pos: 15625477333024561368,
                len: 15337246956872849624,
            },
            Action::Delete {
                client_id: 15336116641672254676,
                pos: 15336116641672254676,
                len: 15336116641672254676,
            },
            Action::Delete {
                client_id: 3110629260244866260,
                pos: 15336115938746116907,
                len: 15336116641672254676,
            },
            Action::Delete {
                client_id: 15336116641672254676,
                pos: 9549038584906175700,
                len: 9548902814626120836,
            },
            Action::NewOp {
                client_id: 6594541459071075460,
                pos: 9511602982165447812,
            },
            Action::NewOp {
                client_id: 18446607800915494020,
                pos: 72056692078084095,
            },
            Action::Sync {
                from: 9548902547289800704,
                to: 132,
            },
            Action::Sync { from: 0, to: 0 },
            Action::Sync { from: 0, to: 0 },
            Action::Sync { from: 0, to: 0 },
            Action::Sync { from: 0, to: 0 },
            Action::Sync {
                from: 0,
                to: 9548902814626086912,
            },
            Action::NewOp {
                client_id: 9548902814626120836,
                pos: 9548902775988192388,
            },
            Action::NewOp {
                client_id: 9548774171765671044,
                pos: 9548902814626120836,
            },
            Action::Delete {
                client_id: 149533581377791,
                pos: 9548895079238501376,
                len: 9548902814626120836,
            },
            Action::Delete {
                client_id: 1445914878893878251,
                pos: 18446484675201602580,
                len: 18446744073709551615,
            },
            Action::Delete {
                client_id: 16999940617099013099,
                pos: 16999940616948018155,
                len: 16999939796609264619,
            },
            Action::Delete {
                client_id: 16999940616948018175,
                pos: 16999940616948018155,
                len: 9548903344978783211,
            },
            Action::NewOp {
                client_id: 9548902814626120836,
                pos: 9537362340580983940,
            },
            Action::NewOp {
                client_id: 9548902814626086912,
                pos: 18446743541393949828,
            },
            Action::Sync {
                from: 285278207,
                to: 9548902813581838336,
            },
            Action::NewOp {
                client_id: 9548902814626120836,
                pos: 9548902814626120836,
            },
            Action::NewOp {
                client_id: 9548902814626120836,
                pos: 9548902812663186564,
            },
            Action::NewOp {
                client_id: 72057594037896324,
                pos: 9513854212820172800,
            },
            Action::NewOp {
                client_id: 9548902814626120836,
                pos: 16999940615213188228,
            },
            Action::Delete {
                client_id: 1446803456761533456,
                pos: 18446744073709551615,
                len: 16999962371294232575,
            },
            Action::Delete {
                client_id: 16999940616948018155,
                pos: 16999940616948018155,
                len: 16999940616948018155,
            },
            Action::Delete {
                client_id: 16999940616948023275,
                pos: 16999940616948018175,
                len: 16999940616948018155,
            },
            Action::Delete {
                client_id: 18446721997240789995,
                pos: 16999940616948023295,
                len: 18446744073372691435,
            },
            Action::Sync {
                from: 18446744073709497855,
                to: 18446744073709551615,
            },
            Action::Sync {
                from: 1085102842656147785,
                to: 18446744073709489935,
            },
            Action::Delete {
                client_id: 18446744073709551615,
                pos: 18446479156084473855,
                len: 18446744073709551615,
            },
            Action::Delete {
                client_id: 18374686479671623680,
                pos: 10055284024483512320,
                len: 10055284024492657547,
            },
            Action::NewOp {
                client_id: 10055284024492657547,
                pos: 10055284024492657547,
            },
            Action::NewOp {
                client_id: 18374968553989966731,
                pos: 18446742978492891136,
            },
            Action::NewOp {
                client_id: 18392136833011023871,
                pos: 1114367,
            },
            Action::NewOp {
                client_id: 9548902814626120836,
                pos: 18374967424295666820,
            },
            Action::Sync {
                from: 5046283382468640785,
                to: 17005592192949676870,
            },
            Action::Delete {
                client_id: 16999940616948018155,
                pos: 18411986881291283435,
                len: 18446744073441116159,
            },
            Action::Delete {
                client_id: 18446744073709551615,
                pos: 18446744073709551615,
                len: 18446744073709551615,
            },
            Action::Delete {
                client_id: 18446744073709551615,
                pos: 589823,
                len: 18446744073709486080,
            },
            Action::Delete {
                client_id: 18446744073709551615,
                pos: 18446744073709551615,
                len: 18446744073709551615,
            },
        ],
    ));
}
